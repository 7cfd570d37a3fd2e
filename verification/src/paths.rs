use vstd::prelude::*;
use crate::text::{chars_of, decimal, decimal_chars, extend_chars, seq_starts_with, starts_with, string_from_chars, sub_chars};

verus! {

// ---------------------------------------------------------------------------
// Paths as sequences of components
// ---------------------------------------------------------------------------

/// A Windows path prefix, parsed as `std::path::Prefix` is: a drive letter is held
/// upper-cased, as std parses it.
#[derive(Debug)]
pub enum PathPrefix {
    /// `\\?\name`.
    Verbatim(String),
    /// `\\?\UNC\server\share`.
    VerbatimUnc(String, String),
    /// `\\?\C:`.
    VerbatimDisk(char),
    /// `\\.\device`.
    DeviceNs(String),
    /// `\\server\share`.
    Unc(String, String),
    /// `C:`.
    Disk(char),
}

/// The mathematical value of a path prefix.
pub enum PrefixView {
    Verbatim(Seq<char>),
    VerbatimUnc(Seq<char>, Seq<char>),
    VerbatimDisk(char),
    DeviceNs(Seq<char>),
    Unc(Seq<char>, Seq<char>),
    Disk(char),
}

impl View for PathPrefix {
    type V = PrefixView;

    open spec fn view(&self) -> PrefixView {
        match self {
            PathPrefix::Verbatim(s) => PrefixView::Verbatim(s@),
            PathPrefix::VerbatimUnc(a, b) => PrefixView::VerbatimUnc(a@, b@),
            PathPrefix::VerbatimDisk(c) => PrefixView::VerbatimDisk(*c),
            PathPrefix::DeviceNs(s) => PrefixView::DeviceNs(s@),
            PathPrefix::Unc(a, b) => PrefixView::Unc(a@, b@),
            PathPrefix::Disk(c) => PrefixView::Disk(*c),
        }
    }
}

/// One component of a filesystem path, as `std::path::Component` yields it.
#[derive(Debug)]
pub enum PathPart {
    /// A Windows prefix such as `C:` or `\\server\share`.
    Prefix(PathPrefix),
    /// The root directory (`/`).
    Root,
    /// `.` at the start of a relative path.
    Current,
    /// `..`.
    Parent,
    /// A file or directory name.
    Normal(String),
}

/// The mathematical value of a path component.
pub enum PartView {
    Prefix(PrefixView),
    Root,
    Current,
    Parent,
    Normal(Seq<char>),
}

impl View for PathPart {
    type V = PartView;

    open spec fn view(&self) -> PartView {
        match self {
            PathPart::Prefix(x) => PartView::Prefix(x@),
            PathPart::Root => PartView::Root,
            PathPart::Current => PartView::Current,
            PathPart::Parent => PartView::Parent,
            PathPart::Normal(s) => PartView::Normal(s@),
        }
    }
}

/// A filesystem path, held as its components.
#[derive(Debug)]
pub struct LibPath {
    pub parts: Vec<PathPart>,
}

impl View for LibPath {
    type V = Seq<PartView>;

    open spec fn view(&self) -> Seq<PartView> {
        self.parts@.map_values(|p: PathPart| p@)
    }
}

// ---------------------------------------------------------------------------
// Ordering (as `Path`'s `Ord`: component by component)
// ---------------------------------------------------------------------------

/// Lexicographic comparison of texts by code point: -1, 0 or 1.
pub open spec fn chars_order(a: Seq<char>, b: Seq<char>) -> int
    decreases a.len(),
{
    if a.len() == 0 {
        if b.len() == 0 { 0 } else { -1 }
    } else if b.len() == 0 {
        1
    } else if a[0] < b[0] {
        -1
    } else if a[0] > b[0] {
        1
    } else {
        chars_order(a.drop_first(), b.drop_first())
    }
}

pub open spec fn part_rank(p: PartView) -> int {
    match p {
        PartView::Prefix(_) => 0,
        PartView::Root => 1,
        PartView::Current => 2,
        PartView::Parent => 3,
        PartView::Normal(_) => 4,
    }
}

pub open spec fn part_text(p: PartView) -> Seq<char> {
    match p {
        PartView::Normal(s) => s,
        _ => Seq::empty(),
    }
}

/// The kind of a prefix, in the order of `std::path::Prefix`'s variants.
pub open spec fn prefix_rank(x: PrefixView) -> int {
    match x {
        PrefixView::Verbatim(_) => 0,
        PrefixView::VerbatimUnc(_, _) => 1,
        PrefixView::VerbatimDisk(_) => 2,
        PrefixView::DeviceNs(_) => 3,
        PrefixView::Unc(_, _) => 4,
        PrefixView::Disk(_) => 5,
    }
}

/// The first field of a prefix as text (a drive letter as a one-character text).
pub open spec fn prefix_first(x: PrefixView) -> Seq<char> {
    match x {
        PrefixView::Verbatim(s) => s,
        PrefixView::VerbatimUnc(a, _) => a,
        PrefixView::VerbatimDisk(c) => seq![c],
        PrefixView::DeviceNs(s) => s,
        PrefixView::Unc(a, _) => a,
        PrefixView::Disk(c) => seq![c],
    }
}

/// The second field of a prefix (the share of a UNC prefix), else empty.
pub open spec fn prefix_second(x: PrefixView) -> Seq<char> {
    match x {
        PrefixView::VerbatimUnc(_, b) => b,
        PrefixView::Unc(_, b) => b,
        _ => Seq::empty(),
    }
}

/// Prefixes compare as `std::path::Prefix` does: by kind, then field by field.
pub open spec fn prefix_order(a: PrefixView, b: PrefixView) -> int {
    if prefix_rank(a) < prefix_rank(b) {
        -1
    } else if prefix_rank(a) > prefix_rank(b) {
        1
    } else if chars_order(prefix_first(a), prefix_first(b)) != 0 {
        chars_order(prefix_first(a), prefix_first(b))
    } else {
        chars_order(prefix_second(a), prefix_second(b))
    }
}

/// Components compare by kind (prefix < root < `.` < `..` < name), then prefixes as
/// parsed and names by text.
pub open spec fn part_order(a: PartView, b: PartView) -> int {
    if part_rank(a) < part_rank(b) {
        -1
    } else if part_rank(a) > part_rank(b) {
        1
    } else {
        match (a, b) {
            (PartView::Prefix(x), PartView::Prefix(y)) => prefix_order(x, y),
            _ => chars_order(part_text(a), part_text(b)),
        }
    }
}

/// Paths compare component by component; a proper prefix comes first.
pub open spec fn path_order(a: Seq<PartView>, b: Seq<PartView>) -> int
    decreases a.len(),
{
    if a.len() == 0 {
        if b.len() == 0 { 0 } else { -1 }
    } else if b.len() == 0 {
        1
    } else if part_order(a[0], b[0]) != 0 {
        part_order(a[0], b[0])
    } else {
        path_order(a.drop_first(), b.drop_first())
    }
}

/// `Path::starts_with`: the components of `base` begin the components of `p`.
pub open spec fn path_starts_with(p: Seq<PartView>, base: Seq<PartView>) -> bool {
    base.len() <= p.len() && p.subrange(0, base.len() as int) == base
}

pub proof fn lemma_chars_order(a: Seq<char>, b: Seq<char>, c: Seq<char>)
    ensures
        chars_order(a, b) == -chars_order(b, a),
        -1 <= chars_order(a, b) <= 1,
        (chars_order(a, b) == 0) == (a == b),
        chars_order(a, b) <= 0 && chars_order(b, c) <= 0 ==> chars_order(a, c) <= 0,
    decreases a.len(),
{
    if a.len() > 0 && b.len() > 0 {
        if c.len() > 0 {
            lemma_chars_order(a.drop_first(), b.drop_first(), c.drop_first());
        } else {
            lemma_chars_order(a.drop_first(), b.drop_first(), c);
        }
        if a.drop_first() == b.drop_first() && a[0] == b[0] {
            assert(a == seq![a[0]] + a.drop_first());
            assert(b == seq![b[0]] + b.drop_first());
        }
        if a == b {
            assert(a.drop_first() == b.drop_first());
        }
    } else if a.len() == 0 && b.len() == 0 {
        assert(a == b);
    }
}

pub proof fn lemma_prefix_order(a: PrefixView, b: PrefixView, c: PrefixView)
    ensures
        prefix_order(a, b) == -prefix_order(b, a),
        -1 <= prefix_order(a, b) <= 1,
        (prefix_order(a, b) == 0) == (a == b),
        prefix_order(a, b) <= 0 && prefix_order(b, c) <= 0 ==> prefix_order(a, c) <= 0,
{
    lemma_chars_order(prefix_first(a), prefix_first(b), prefix_first(c));
    lemma_chars_order(prefix_second(a), prefix_second(b), prefix_second(c));
    lemma_chars_order(prefix_first(a), prefix_first(c), prefix_first(b));
    lemma_chars_order(prefix_first(b), prefix_first(c), prefix_first(a));
    lemma_chars_order(prefix_second(a), prefix_second(c), prefix_second(b));
    if prefix_rank(a) == prefix_rank(b) && prefix_first(a) == prefix_first(b) && prefix_second(a) == prefix_second(b) {
        match a {
            PrefixView::VerbatimDisk(x) => {
                assert(seq![x][0] == x);
                assert(prefix_first(b)[0] == prefix_first(a)[0]);
            },
            PrefixView::Disk(x) => {
                assert(seq![x][0] == x);
                assert(prefix_first(b)[0] == prefix_first(a)[0]);
            },
            _ => {},
        }
    }
}

pub proof fn lemma_part_order(a: PartView, b: PartView, c: PartView)
    ensures
        part_order(a, b) == -part_order(b, a),
        -1 <= part_order(a, b) <= 1,
        (part_order(a, b) == 0) == (a == b),
        part_order(a, b) <= 0 && part_order(b, c) <= 0 ==> part_order(a, c) <= 0,
{
    lemma_chars_order(part_text(a), part_text(b), part_text(c));
    match (a, b, c) {
        (PartView::Prefix(x), PartView::Prefix(y), PartView::Prefix(z)) => lemma_prefix_order(x, y, z),
        (PartView::Prefix(x), PartView::Prefix(y), _) => lemma_prefix_order(x, y, x),
        _ => {},
    }
}

pub proof fn lemma_path_order(a: Seq<PartView>, b: Seq<PartView>, c: Seq<PartView>)
    ensures
        path_order(a, b) == -path_order(b, a),
        -1 <= path_order(a, b) <= 1,
        (path_order(a, b) == 0) == (a == b),
        path_order(a, b) <= 0 && path_order(b, c) <= 0 ==> path_order(a, c) <= 0,
    decreases a.len(),
{
    if a.len() > 0 && b.len() > 0 {
        lemma_part_order(a[0], b[0], if c.len() > 0 { c[0] } else { a[0] });
        if c.len() > 0 {
            lemma_part_order(a[0], c[0], b[0]);
            lemma_part_order(b[0], c[0], a[0]);
            lemma_path_order(a.drop_first(), b.drop_first(), c.drop_first());
        } else {
            lemma_path_order(a.drop_first(), b.drop_first(), a.drop_first());
        }
        if a.drop_first() == b.drop_first() && a[0] == b[0] {
            assert(a == seq![a[0]] + a.drop_first());
            assert(b == seq![b[0]] + b.drop_first());
        }
        if a == b {
            assert(a.drop_first() == b.drop_first());
        }
    } else if a.len() == 0 && b.len() == 0 {
        assert(a == b);
    }
}

/// A path comes no later than any path that starts with it.
pub proof fn lemma_prefix_not_after(p: Seq<PartView>, base: Seq<PartView>)
    requires
        path_starts_with(p, base),
    ensures
        path_order(base, p) <= 0,
    decreases base.len(),
{
    if base.len() > 0 {
        assert(p[0] == base[0]);
        lemma_part_order(base[0], p[0], p[0]);
        assert(p.drop_first().subrange(0, base.len() - 1) == base.drop_first());
        lemma_prefix_not_after(p.drop_first(), base.drop_first());
    }
}

pub proof fn lemma_starts_with_trans(a: Seq<PartView>, b: Seq<PartView>, c: Seq<PartView>)
    requires
        path_starts_with(a, b),
        path_starts_with(b, c),
    ensures
        path_starts_with(a, c),
{
    assert(a.subrange(0, c.len() as int) == b.subrange(0, c.len() as int));
}

// ---------------------------------------------------------------------------
// Executable comparison
// ---------------------------------------------------------------------------

fn compare_chars(a: &Vec<char>, b: &Vec<char>) -> (r: i8)
    ensures
        r as int == chars_order(a@, b@),
{
    let mut i: usize = 0;
    assert(a@.skip(0) == a@ && b@.skip(0) == b@);
    while i < a.len() && i < b.len()
        invariant
            i <= a@.len(),
            i <= b@.len(),
            chars_order(a@, b@) == chars_order(a@.skip(i as int), b@.skip(i as int)),
        decreases a.len() - i,
    {
        let ghost sa = a@.skip(i as int);
        let ghost sb = b@.skip(i as int);
        assert(sa[0] == a@[i as int] && sb[0] == b@[i as int]);
        if a[i] < b[i] {
            return -1;
        }
        if a[i] > b[i] {
            return 1;
        }
        assert(sa.drop_first() == a@.skip(i as int + 1));
        assert(sb.drop_first() == b@.skip(i as int + 1));
        i += 1;
    }
    if i < a.len() {
        1
    } else if i < b.len() {
        -1
    } else {
        0
    }
}

fn part_rank_of(p: &PathPart) -> (r: u8)
    ensures
        r as int == part_rank(p@),
{
    match p {
        PathPart::Prefix(_) => 0,
        PathPart::Root => 1,
        PathPart::Current => 2,
        PathPart::Parent => 3,
        PathPart::Normal(_) => 4,
    }
}

fn part_text_of(p: &PathPart) -> (r: Vec<char>)
    ensures
        r@ == part_text(p@),
{
    match p {
        PathPart::Normal(s) => chars_of(s.as_str()),
        _ => Vec::new(),
    }
}

fn prefix_rank_of(x: &PathPrefix) -> (r: u8)
    ensures
        r as int == prefix_rank(x@),
{
    match x {
        PathPrefix::Verbatim(_) => 0,
        PathPrefix::VerbatimUnc(_, _) => 1,
        PathPrefix::VerbatimDisk(_) => 2,
        PathPrefix::DeviceNs(_) => 3,
        PathPrefix::Unc(_, _) => 4,
        PathPrefix::Disk(_) => 5,
    }
}

fn prefix_fields_of(x: &PathPrefix) -> (r: (Vec<char>, Vec<char>))
    ensures
        r.0@ == prefix_first(x@),
        r.1@ == prefix_second(x@),
{
    match x {
        PathPrefix::Verbatim(s) => (chars_of(s.as_str()), Vec::new()),
        PathPrefix::VerbatimUnc(a, b) => (chars_of(a.as_str()), chars_of(b.as_str())),
        PathPrefix::VerbatimDisk(c) => {
            let v = vec![*c];
            assert(v@ =~= seq![*c]);
            (v, Vec::new())
        },
        PathPrefix::DeviceNs(s) => (chars_of(s.as_str()), Vec::new()),
        PathPrefix::Unc(a, b) => (chars_of(a.as_str()), chars_of(b.as_str())),
        PathPrefix::Disk(c) => {
            let v = vec![*c];
            assert(v@ =~= seq![*c]);
            (v, Vec::new())
        },
    }
}

fn compare_prefixes(a: &PathPrefix, b: &PathPrefix) -> (r: i8)
    ensures
        r as int == prefix_order(a@, b@),
{
    let ra = prefix_rank_of(a);
    let rb = prefix_rank_of(b);
    if ra < rb {
        -1
    } else if ra > rb {
        1
    } else {
        let (a1, a2) = prefix_fields_of(a);
        let (b1, b2) = prefix_fields_of(b);
        let c = compare_chars(&a1, &b1);
        if c != 0 {
            c
        } else {
            compare_chars(&a2, &b2)
        }
    }
}

fn compare_parts(a: &PathPart, b: &PathPart) -> (r: i8)
    ensures
        r as int == part_order(a@, b@),
{
    let ra = part_rank_of(a);
    let rb = part_rank_of(b);
    if ra < rb {
        -1
    } else if ra > rb {
        1
    } else {
        match (a, b) {
            (PathPart::Prefix(x), PathPart::Prefix(y)) => compare_prefixes(x, y),
            _ => {
                let ta = part_text_of(a);
                let tb = part_text_of(b);
                compare_chars(&ta, &tb)
            },
        }
    }
}

/// Compares two paths component by component (`Path`'s `Ord`).
pub fn compare_paths(a: &LibPath, b: &LibPath) -> (r: i8)
    ensures
        r as int == path_order(a@, b@),
{
    let mut i: usize = 0;
    assert(a@.skip(0) == a@ && b@.skip(0) == b@);
    while i < a.parts.len() && i < b.parts.len()
        invariant
            i <= a@.len(),
            i <= b@.len(),
            a@.len() == a.parts@.len(),
            b@.len() == b.parts@.len(),
            path_order(a@, b@) == path_order(a@.skip(i as int), b@.skip(i as int)),
        decreases a.parts.len() - i,
    {
        let ghost sa = a@.skip(i as int);
        let ghost sb = b@.skip(i as int);
        assert(sa[0] == a.parts@[i as int]@ && sb[0] == b.parts@[i as int]@);
        let c = compare_parts(&a.parts[i], &b.parts[i]);
        if c != 0 {
            return c;
        }
        assert(sa.drop_first() == a@.skip(i as int + 1));
        assert(sb.drop_first() == b@.skip(i as int + 1));
        i += 1;
    }
    if i < a.parts.len() {
        1
    } else if i < b.parts.len() {
        -1
    } else {
        0
    }
}

/// `Path::starts_with`: whether the components of `base` begin those of `path`.
pub fn starts_with_path(path: &LibPath, base: &LibPath) -> (r: bool)
    ensures
        r == path_starts_with(path@, base@),
{
    if base.parts.len() > path.parts.len() {
        return false;
    }
    let mut i: usize = 0;
    while i < base.parts.len()
        invariant
            i <= base@.len() <= path@.len(),
            base@.len() == base.parts@.len(),
            path@.len() == path.parts@.len(),
            forall|k: int| 0 <= k < i ==> path@[k] == base@[k],
        decreases base.parts.len() - i,
    {
        let c = compare_parts(&path.parts[i], &base.parts[i]);
        proof {
            lemma_part_order(path@[i as int], base@[i as int], base@[i as int]);
        }
        if c != 0 {
            assert(path@.subrange(0, base@.len() as int)[i as int] != base@[i as int]);
            return false;
        }
        i += 1;
    }
    assert(path@.subrange(0, base@.len() as int) =~= base@);
    true
}

/// Whether one path lies inside the other (or they are the same).
pub fn paths_overlap(left: &LibPath, right: &LibPath) -> (r: bool)
    ensures
        r == (path_starts_with(left@, right@) || path_starts_with(right@, left@)),
{
    starts_with_path(left, right) || starts_with_path(right, left)
}

/// Whether `path` lies inside one of `roots`.
pub fn media_path_in_roots(path: &LibPath, roots: &Vec<LibPath>) -> (r: bool)
    ensures
        r == exists|k: int| 0 <= k < roots@.len() && path_starts_with(path@, #[trigger] roots@[k]@),
{
    let mut i: usize = 0;
    while i < roots.len()
        invariant
            i <= roots@.len(),
            forall|k: int| 0 <= k < i ==> !path_starts_with(path@, #[trigger] roots@[k]@),
        decreases roots.len() - i,
    {
        if starts_with_path(path, &roots[i]) {
            return true;
        }
        i += 1;
    }
    false
}


// ---------------------------------------------------------------------------
// Root sets: sorted, without duplicates, without nested entries
// ---------------------------------------------------------------------------

pub open spec fn views(v: Seq<LibPath>) -> Seq<Seq<PartView>> {
    v.map_values(|p: LibPath| p@)
}

pub open spec fn sorted_paths(s: Seq<Seq<PartView>>) -> bool {
    forall|i: int, j: int| 0 <= i < j < s.len() ==> path_order(#[trigger] s[i], #[trigger] s[j]) <= 0
}

pub open spec fn strictly_sorted_paths(s: Seq<Seq<PartView>>) -> bool {
    forall|i: int, j: int| 0 <= i < j < s.len() ==> path_order(#[trigger] s[i], #[trigger] s[j]) < 0
}

/// `x` is one of the paths in `s` and none of the others in `s` contains it.
pub open spec fn outermost_in(s: Seq<Seq<PartView>>, x: Seq<PartView>) -> bool {
    &&& s.contains(x)
    &&& forall|y: Seq<PartView>| s.contains(y) && path_starts_with(x, y) ==> y == x
}

proof fn lemma_order_strict_trans(a: Seq<PartView>, b: Seq<PartView>, c: Seq<PartView>)
    ensures
        path_order(a, b) < 0 && path_order(b, c) <= 0 ==> path_order(a, c) < 0,
        path_order(a, b) <= 0 && path_order(b, c) < 0 ==> path_order(a, c) < 0,
        path_order(a, b) <= 0 && path_order(b, c) <= 0 ==> path_order(a, c) <= 0,
{
    lemma_path_order(a, b, c);
    lemma_path_order(b, c, a);
    lemma_path_order(c, a, b);
    lemma_path_order(a, c, b);
    lemma_path_order(b, a, c);
}

proof fn lemma_insert_sorted(s: Seq<Seq<PartView>>, k: int, x: Seq<PartView>)
    requires
        0 <= k <= s.len(),
        sorted_paths(s),
        forall|j: int| 0 <= j < k ==> path_order(#[trigger] s[j], x) <= 0,
        k < s.len() ==> path_order(x, s[k]) < 0,
    ensures
        sorted_paths(s.insert(k, x)),
{
    let t = s.insert(k, x);
    assert forall|i: int, j: int| 0 <= i < j < t.len() implies path_order(#[trigger] t[i], #[trigger] t[j]) <= 0 by {
        if j < k {
            assert(t[i] == s[i] && t[j] == s[j]);
        } else if j == k {
            assert(t[i] == s[i] && t[j] == x);
        } else if i == k {
            assert(t[j] == s[j - 1]);
            if j - 1 > k {
                lemma_order_strict_trans(x, s[k], s[j - 1]);
            }
        } else if i < k {
            assert(t[i] == s[i] && t[j] == s[j - 1]);
        } else {
            assert(t[i] == s[i - 1] && t[j] == s[j - 1]);
        }
    }
}

/// The paths of `v`, sorted (stable insertion sort, as `sort()` orders `PathBuf`s).
pub fn sort_paths(v: Vec<LibPath>) -> (r: Vec<LibPath>)
    ensures
        sorted_paths(views(r@)),
        r@.len() == v@.len(),
        forall|x: Seq<PartView>| views(r@).contains(x) <==> views(v@).contains(x),
{
    let ghost input = views(v@);
    let mut rest = v;
    let mut out: Vec<LibPath> = Vec::new();
    while rest.len() > 0
        invariant
            sorted_paths(views(out@)),
            out@.len() + rest@.len() == input.len(),
            forall|x: Seq<PartView>|
                views(out@).contains(x) || views(rest@).contains(x) <==> input.contains(x),
        decreases rest@.len(),
    {
        let ghost old_out = views(out@);
        let ghost old_rest = views(rest@);
        let x = rest.pop().unwrap();
        let ghost xv = x@;
        assert(views(rest@) == old_rest.drop_last());
        assert(old_rest.last() == xv);
        let mut k: usize = 0;
        while k < out.len() && compare_paths(&out[k], &x) <= 0
            invariant
                k <= out@.len(),
                views(out@) == old_out,
                xv == x@,
                forall|j: int| 0 <= j < k ==> path_order(#[trigger] old_out[j], xv) <= 0,
            decreases out@.len() - k,
        {
            k += 1;
        }
        proof {
            if k < out@.len() {
                lemma_path_order(old_out[k as int], xv, xv);
            }
            lemma_insert_sorted(old_out, k as int, xv);
        }
        out.insert(k, x);
        assert(views(out@) =~= old_out.insert(k as int, xv));
        assert forall|y: Seq<PartView>|
            views(out@).contains(y) || views(rest@).contains(y) <==> input.contains(y) by {
            let no = views(out@);
            if no.contains(y) {
                let i = choose|i: int| 0 <= i < no.len() && no[i] == y;
                if i < k {
                    assert(old_out[i] == y);
                } else if i > k {
                    assert(old_out[i - 1] == y);
                } else {
                    assert(old_rest[old_rest.len() - 1] == y);
                }
            }
            if views(rest@).contains(y) {
                let i = choose|i: int| 0 <= i < views(rest@).len() && views(rest@)[i] == y;
                assert(old_rest[i] == y);
            }
            if old_out.contains(y) {
                let i = choose|i: int| 0 <= i < old_out.len() && old_out[i] == y;
                if i < k {
                    assert(no[i] == y);
                } else {
                    assert(no[i + 1] == y);
                }
            }
            if old_rest.contains(y) {
                let i = choose|i: int| 0 <= i < old_rest.len() && old_rest[i] == y;
                if i == old_rest.len() - 1 {
                    assert(no[k as int] == y);
                } else {
                    assert(views(rest@)[i] == y);
                }
            }
        }
    }
    assert(views(rest@) =~= Seq::<Seq<PartView>>::empty());
    out
}

/// A sorted sequence of paths without repeated entries (`dedup` after `sort`).
pub fn dedup_sorted_paths(v: Vec<LibPath>) -> (r: Vec<LibPath>)
    requires
        sorted_paths(views(v@)),
    ensures
        strictly_sorted_paths(views(r@)),
        forall|x: Seq<PartView>| views(r@).contains(x) <==> views(v@).contains(x),
{
    let ghost input = views(v@);
    let mut rest = v;
    let mut out: Vec<LibPath> = Vec::new();
    let ghost mut taken: int = 0;
    while rest.len() > 0
        invariant
            0 <= taken <= input.len(),
            views(rest@) == input.skip(taken),
            sorted_paths(input),
            strictly_sorted_paths(views(out@)),
            out@.len() > 0 ==> taken > 0 && views(out@).last() == input[taken - 1],
            forall|x: Seq<PartView>| views(out@).contains(x) <==> input.take(taken).contains(x),
        decreases rest@.len(),
    {
        let ghost old_out = views(out@);
        assert forall|y: Seq<PartView>| old_out.contains(y) <==> input.take(taken).contains(y) by {
            assert(views(out@).contains(y) <==> input.take(taken).contains(y));
        }
        let ghost old_rest = rest@;
        assert(views(old_rest)[0] == input.skip(taken)[0]);
        let x = rest.remove(0);
        let ghost xv = x@;
        assert(rest@ == old_rest.remove(0));
        assert(x == old_rest[0]);
        assert(views(old_rest).len() == old_rest.len());
        assert(input.skip(taken).len() == input.len() - taken);
        assert(taken < input.len());
        assert(views(old_rest)[0] == old_rest[0]@);
        assert(input.skip(taken)[0] == input[taken]);
        assert(xv == input[taken]);
        assert forall|k: int| 0 <= k < views(rest@).len() implies #[trigger] views(rest@)[k] == input.skip(taken + 1)[k] by {
            assert(rest@[k] == old_rest[k + 1]);
            assert(views(old_rest)[k + 1] == input.skip(taken)[k + 1]);
        }
        assert(views(rest@) =~= input.skip(taken + 1));
        let keep = if out.len() == 0 {
            true
        } else {
            let last = out.len() - 1;
            compare_paths(&out[last], &x) != 0
        };
        let ghost pushed = keep;
        if keep {
            proof {
                if old_out.len() > 0 {
                    let l = old_out.last();
                    assert(l == input[taken - 1]);
                    assert(path_order(input[taken - 1], input[taken]) <= 0);
                    assert forall|i: int| 0 <= i < old_out.len() implies path_order(#[trigger] old_out[i], xv) < 0 by {
                        if i < old_out.len() - 1 {
                            lemma_order_strict_trans(old_out[i], l, xv);
                        }
                    }
                }
            }
            out.push(x);
            assert(views(out@) =~= old_out.push(xv));
            assert(strictly_sorted_paths(views(out@))) by {
                assert forall|i: int, j: int| 0 <= i < j < views(out@).len() implies path_order(
                    #[trigger] views(out@)[i],
                    #[trigger] views(out@)[j],
                ) < 0 by {
                    if j < old_out.len() {
                        assert(views(out@)[i] == old_out[i] && views(out@)[j] == old_out[j]);
                    } else {
                        assert(views(out@)[i] == old_out[i]);
                    }
                }
            }
        } else {
            proof {
                lemma_path_order(old_out.last(), xv, xv);
            }
        }
        proof {
            let t0 = input.take(taken);
            let t1 = input.take(taken + 1);
            assert(t1 =~= t0.push(xv));
            assert forall|y: Seq<PartView>| views(out@).contains(y) <==> t1.contains(y) by {
                if t1.contains(y) {
                    let i = choose|i: int| 0 <= i < t1.len() && t1[i] == y;
                    if i < t0.len() {
                        assert(t0[i] == y);
                    }
                    if i < t0.len() {
                        assert(t1[i] == t0[i]);
                        assert(t0[i] == y);
                        assert(t0.contains(y));
                        assert(old_out.contains(y));
                        let j = choose|j: int| 0 <= j < old_out.len() && old_out[j] == y;
                        if pushed {
                            assert(views(out@)[j] == y);
                        }
                    } else if pushed {
                        assert(views(out@)[views(out@).len() - 1] == y);
                    } else {
                        assert(old_out[old_out.len() - 1] == y);
                    }
                }
                if views(out@).contains(y) {
                    let j = choose|j: int| 0 <= j < views(out@).len() && views(out@)[j] == y;
                    if pushed && j == old_out.len() {
                        assert(t1[taken] == y);
                    } else {
                        assert(old_out[j] == y);
                        assert(old_out.contains(y));
                        assert(t0.contains(y));
                        let i = choose|i: int| 0 <= i < t0.len() && t0[i] == y;
                        assert(t1[i] == y);
                    }
                }
            }
            taken = taken + 1;
        }
    }
    assert(input.take(taken) =~= input);
    out
}


/// Keeps, from a strictly sorted sequence of paths, those not inside an earlier kept one.
pub fn drop_nested_paths(v: Vec<LibPath>) -> (r: Vec<LibPath>)
    requires
        strictly_sorted_paths(views(v@)),
    ensures
        strictly_sorted_paths(views(r@)),
        forall|x: Seq<PartView>| views(r@).contains(x) <==> outermost_in(views(v@), x),
{
    let ghost input = views(v@);
    let mut rest = v;
    let mut kept: Vec<LibPath> = Vec::new();
    let ghost mut taken: int = 0;
    // where each kept path stands in the input
    let ghost mut origin: Seq<int> = Seq::empty();
    // for each processed path, a kept path that contains it
    let ghost mut cover: Seq<int> = Seq::empty();
    while rest.len() > 0
        invariant
            0 <= taken <= input.len(),
            views(rest@) == input.skip(taken),
            strictly_sorted_paths(input),
            origin.len() == views(kept@).len(),
            forall|i: int| 0 <= i < origin.len() ==> 0 <= #[trigger] origin[i] < taken
                && input[origin[i]] == views(kept@)[i],
            forall|a: int, b: int| 0 <= a < b < origin.len() ==> #[trigger] origin[a] < #[trigger] origin[b],
            cover.len() == taken,
            forall|j: int| 0 <= j < taken ==> 0 <= #[trigger] cover[j] < views(kept@).len()
                && path_starts_with(input[j], views(kept@)[cover[j]]),
            forall|i: int, j: int| 0 <= i < views(kept@).len() && 0 <= j < taken
                && path_starts_with(#[trigger] views(kept@)[i], #[trigger] input[j]) ==> input[j] == views(kept@)[i],
        decreases rest@.len(),
    {
        let ghost old_kept = views(kept@);
        let ghost old_rest = rest@;
        assert(views(old_rest)[0] == input.skip(taken)[0]);
        let root = rest.remove(0);
        let ghost rv = root@;
        assert(rest@ == old_rest.remove(0));
        assert(root == old_rest[0]);
        assert(views(old_rest).len() == old_rest.len());
        assert(input.skip(taken).len() == input.len() - taken);
        assert(taken < input.len());
        assert(views(old_rest)[0] == old_rest[0]@);
        assert(input.skip(taken)[0] == input[taken]);
        assert(rv == input[taken]);
        assert forall|k: int| 0 <= k < views(rest@).len() implies #[trigger] views(rest@)[k] == input.skip(taken + 1)[k] by {
            assert(rest@[k] == old_rest[k + 1]);
            assert(views(old_rest)[k + 1] == input.skip(taken)[k + 1]);
        }
        assert(views(rest@) =~= input.skip(taken + 1));
        let mut container: Option<usize> = None;
        let mut i: usize = 0;
        while i < kept.len()
            invariant
                i <= kept@.len(),
                views(kept@) == old_kept,
                rv == root@,
                match container {
                    Some(k) => k < old_kept.len() && path_starts_with(rv, old_kept[k as int]),
                    None => forall|k: int| 0 <= k < i ==> !path_starts_with(rv, #[trigger] old_kept[k]),
                },
            decreases kept@.len() - i,
        {
            assert(old_kept[i as int] == kept@[i as int]@);
            if container.is_none() && starts_with_path(&root, &kept[i]) {
                container = Some(i);
            }
            i += 1;
        }
        let ghost old_origin = origin;
        let ghost old_cover = cover;
        match container {
            Some(k) => {
                proof {
                    cover = old_cover.push(k as int);
                }
            },
            None => {
                kept.push(root);
                assert(views(kept@) =~= old_kept.push(rv));
                proof {
                    origin = old_origin.push(taken);
                    cover = old_cover.push(old_kept.len() as int);
                }
            },
        }
        proof {
            let nk = views(kept@);
            assert(container is Some ==> nk == old_kept);
            // origins
            assert forall|i: int| 0 <= i < origin.len() implies 0 <= #[trigger] origin[i] < taken + 1
                && input[origin[i]] == nk[i] by {
                if i < old_origin.len() {
                    assert(origin[i] == old_origin[i]);
                    assert(nk[i] == old_kept[i]);
                }
            }
            assert forall|a: int, b: int| 0 <= a < b < origin.len() implies #[trigger] origin[a] < #[trigger] origin[b] by {
                if b < old_origin.len() {
                    assert(origin[a] == old_origin[a] && origin[b] == old_origin[b]);
                } else {
                    assert(origin[a] == old_origin[a]);
                }
            }
            // coverage
            assert forall|j: int| 0 <= j < taken + 1 implies 0 <= #[trigger] cover[j] < nk.len()
                && path_starts_with(input[j], nk[cover[j]]) by {
                if j < taken {
                    assert(cover[j] == old_cover[j]);
                    assert(nk[old_cover[j]] == old_kept[old_cover[j]]);
                } else if container is None {
                    assert(nk[old_kept.len() as int] == rv);
                    assert(rv.subrange(0, rv.len() as int) =~= rv);
                } else {
                    assert(nk[cover[j]] == old_kept[cover[j]]);
                }
            }
            // minimality
            assert forall|i: int, j: int| 0 <= i < nk.len() && 0 <= j < taken + 1
                && path_starts_with(#[trigger] nk[i], #[trigger] input[j]) implies input[j] == nk[i] by {
                if container is None && i == old_kept.len() {
                    if j < taken {
                        let c = old_cover[j];
                        lemma_starts_with_trans(rv, input[j], old_kept[c]);
                        assert(!path_starts_with(rv, old_kept[c]));
                    }
                } else {
                    assert(nk[i] == old_kept[i]);
                    if j == taken {
                        let o = old_origin[i];
                        assert(input[o] == old_kept[i]);
                        assert(path_order(input[o], input[taken]) < 0);
                        lemma_prefix_not_after(old_kept[i], rv);
                        lemma_path_order(old_kept[i], rv, rv);
                    }
                }
            }
            taken = taken + 1;
        }
    }
    proof {
        let k = views(kept@);
        assert(input.take(taken) =~= input);
        assert(strictly_sorted_paths(k)) by {
            assert forall|a: int, b: int| 0 <= a < b < k.len() implies path_order(#[trigger] k[a], #[trigger] k[b]) < 0 by {
                assert(origin[a] < origin[b]);
                assert(input[origin[a]] == k[a] && input[origin[b]] == k[b]);
            }
        }
        assert forall|x: Seq<PartView>| k.contains(x) <==> outermost_in(input, x) by {
            if k.contains(x) {
                let i = choose|i: int| 0 <= i < k.len() && k[i] == x;
                assert(input[origin[i]] == x);
                assert forall|y: Seq<PartView>| input.contains(y) && path_starts_with(x, y) implies y == x by {
                    let j = choose|j: int| 0 <= j < input.len() && input[j] == y;
                    assert(path_starts_with(k[i], input[j]));
                }
            }
            if outermost_in(input, x) {
                let j = choose|j: int| 0 <= j < input.len() && input[j] == x;
                let c = cover[j];
                assert(path_starts_with(input[j], k[c]));
                assert(input[origin[c]] == k[c]);
                assert(input.contains(k[c]));
                assert(k[c] == x);
            }
        }
    }
    kept
}

/// Normalizes a set of directories: sorted, without duplicates, and without any
/// directory that lies inside another one of the set.
pub fn collect_roots(paths: Vec<LibPath>) -> (roots: Vec<LibPath>)
    ensures
        strictly_sorted_paths(views(roots@)),
        forall|x: Seq<PartView>| views(roots@).contains(x) <==> outermost_in(views(paths@), x),
{
    let ghost input = views(paths@);
    let sorted = sort_paths(paths);
    let unique = dedup_sorted_paths(sorted);
    let roots = drop_nested_paths(unique);
    proof {
        assert forall|x: Seq<PartView>| outermost_in(views(unique@), x) == outermost_in(input, x) by {}
    }
    roots
}


/// Two strictly sorted sequences of paths that hold the same paths are the same sequence.
proof fn lemma_strictly_sorted_same_members(a: Seq<Seq<PartView>>, b: Seq<Seq<PartView>>)
    requires
        strictly_sorted_paths(a),
        strictly_sorted_paths(b),
        forall|x: Seq<PartView>| a.contains(x) <==> b.contains(x),
    ensures
        a == b,
    decreases a.len(),
{
    if a.len() == 0 {
        if b.len() > 0 {
            assert(b.contains(b[0]));
        }
        assert(b =~= a);
    } else {
        assert(a.contains(a[0]));
        assert(b.len() > 0);
        assert(b.contains(b[0]));
        let i = a.index_of(b[0]);
        let j = b.index_of(a[0]);
        lemma_path_order(a[0], b[0], a[0]);
        lemma_path_order(a[0], a[0], a[0]);
        if i > 0 {
            assert(path_order(a[0], a[i]) < 0);
            if j > 0 {
                assert(path_order(b[0], b[j]) < 0);
            }
        } else if j > 0 {
            assert(path_order(b[0], b[j]) < 0);
        }
        assert(a[0] == b[0]);
        let ra = a.drop_first();
        let rb = b.drop_first();
        assert forall|x: Seq<PartView>| ra.contains(x) <==> rb.contains(x) by {
            if ra.contains(x) {
                let k = ra.index_of(x);
                assert(a[k + 1] == x);
                assert(path_order(a[0], a[k + 1]) < 0);
                assert(b.contains(x));
                let m = b.index_of(x);
                if m == 0 {
                    assert(path_order(x, x) == 0);
                }
                assert(rb[m - 1] == x);
            }
            if rb.contains(x) {
                let k = rb.index_of(x);
                assert(b[k + 1] == x);
                assert(path_order(b[0], b[k + 1]) < 0);
                assert(a.contains(x));
                let m = a.index_of(x);
                if m == 0 {
                    assert(path_order(x, x) == 0);
                }
                assert(ra[m - 1] == x);
            }
        }
        lemma_strictly_sorted_same_members(ra, rb);
        assert(a =~= seq![a[0]] + ra);
        assert(b =~= seq![b[0]] + rb);
    }
}

/// Collecting the roots of a set of roots gives the same roots: `collect_roots` applied to
/// what it returned returns it unchanged.
pub proof fn lemma_collect_roots_idempotent(
    paths: Seq<Seq<PartView>>,
    roots: Seq<Seq<PartView>>,
    again: Seq<Seq<PartView>>,
)
    requires
        strictly_sorted_paths(roots),
        forall|x: Seq<PartView>| roots.contains(x) <==> outermost_in(paths, x),
        strictly_sorted_paths(again),
        forall|x: Seq<PartView>| again.contains(x) <==> outermost_in(roots, x),
    ensures
        again == roots,
{
    assert forall|x: Seq<PartView>| outermost_in(roots, x) <==> roots.contains(x) by {
        if roots.contains(x) {
            assert(outermost_in(paths, x));
            assert forall|y: Seq<PartView>| roots.contains(y) && path_starts_with(x, y) implies y == x by {
                assert(outermost_in(paths, y));
            }
        }
    }
    lemma_strictly_sorted_same_members(again, roots);
}

/// `Path::is_absolute` on the platform (`windows` or not). Elsewhere a path is absolute
/// when it starts at the root. On Windows it needs a prefix and a root: a drive prefix
/// (`C:`) must be followed by the root directory, while the other prefixes (verbatim,
/// device and UNC) carry a root of their own; `\temp` and `C:temp` are not absolute.
pub open spec fn is_absolute_spec(p: Seq<PartView>, windows: bool) -> bool {
    if windows {
        p.len() > 0 && match p[0] {
            PartView::Prefix(x) => !(x is Disk) || (p.len() > 1 && p[1] is Root),
            _ => false,
        }
    } else {
        p.len() > 0 && p[0] is Root
    }
}

/// `x` is an absolute path of `s` that lies inside no other absolute path of `s`.
pub open spec fn outermost_absolute_in(s: Seq<Seq<PartView>>, x: Seq<PartView>, windows: bool) -> bool {
    &&& s.contains(x)
    &&& is_absolute_spec(x, windows)
    &&& forall|y: Seq<PartView>| s.contains(y) && is_absolute_spec(y, windows) && path_starts_with(x, y) ==> y == x
}

/// Whether `path` is absolute on the platform (`windows` or not).
pub fn is_absolute(path: &LibPath, windows: bool) -> (r: bool)
    ensures
        r == is_absolute_spec(path@, windows),
{
    let n = path.parts.len();
    if n == 0 {
        return false;
    }
    if windows {
        match &path.parts[0] {
            PathPart::Prefix(PathPrefix::Disk(_)) => n > 1 && matches!(path.parts[1], PathPart::Root),
            PathPart::Prefix(_) => true,
            _ => false,
        }
    } else {
        matches!(path.parts[0], PathPart::Root)
    }
}

/// The directories the asset protocol may serve: the absolute ones among `roots`, sorted,
/// without duplicates and without any that lies inside another.
pub fn collapse_asset_roots(roots: Vec<LibPath>, windows: bool) -> (r: Vec<LibPath>)
    ensures
        strictly_sorted_paths(views(r@)),
        forall|x: Seq<PartView>| views(r@).contains(x) <==> outermost_absolute_in(views(roots@), x, windows),
{
    let ghost input = views(roots@);
    let mut rest = roots;
    let mut absolute: Vec<LibPath> = Vec::new();
    assert(input.take(input.len() as int) =~= input);
    while rest.len() > 0
        invariant
            rest@.len() <= input.len(),
            views(rest@) == input.take(rest@.len() as int),
            forall|i: int| 0 <= i < views(absolute@).len() ==> input.contains(#[trigger] views(absolute@)[i])
                && is_absolute_spec(views(absolute@)[i], windows),
            forall|j: int| rest@.len() <= j < input.len() && is_absolute_spec(#[trigger] input[j], windows)
                ==> views(absolute@).contains(input[j]),
        decreases rest@.len(),
    {
        let ghost old_abs = views(absolute@);
        let ghost old_rest = views(rest@);
        let p = rest.pop().unwrap();
        let ghost pv = p@;
        let ghost n = rest@.len() as int;
        assert(views(rest@) =~= old_rest.drop_last());
        assert(old_rest.last() == pv);
        assert(pv == input[n]);
        assert(views(rest@) =~= input.take(n));
        let keep = is_absolute(&p, windows);
        if keep {
            absolute.push(p);
            assert(views(absolute@) =~= old_abs.push(pv));
        }
        assert forall|i: int| 0 <= i < views(absolute@).len() implies input.contains(#[trigger] views(absolute@)[i])
            && is_absolute_spec(views(absolute@)[i], windows) by {
            if i < old_abs.len() {
                assert(views(absolute@)[i] == old_abs[i]);
            } else {
                assert(input[n] == views(absolute@)[i]);
            }
        }
        assert forall|j: int| n <= j < input.len() && is_absolute_spec(#[trigger] input[j], windows)
            implies views(absolute@).contains(input[j]) by {
            if j == n {
                assert(views(absolute@)[old_abs.len() as int] == input[j]);
            } else {
                assert(old_abs.contains(input[j]));
                let i = choose|i: int| 0 <= i < old_abs.len() && old_abs[i] == input[j];
                assert(views(absolute@)[i] == input[j]);
            }
        }
    }
    let ghost abs = views(absolute@);
    let r = collect_roots(absolute);
    proof {
        assert forall|y: Seq<PartView>| abs.contains(y) <==> input.contains(y) && is_absolute_spec(y, windows) by {
            if abs.contains(y) {
                let i = choose|i: int| 0 <= i < abs.len() && abs[i] == y;
                assert(input.contains(abs[i]));
            }
            if input.contains(y) && is_absolute_spec(y, windows) {
                let j = choose|j: int| 0 <= j < input.len() && input[j] == y;
                assert(abs.contains(input[j]));
            }
        }
        assert forall|x: Seq<PartView>| outermost_in(abs, x) == outermost_absolute_in(input, x, windows) by {
            if outermost_in(abs, x) {
                assert forall|y: Seq<PartView>| input.contains(y) && is_absolute_spec(y, windows) && path_starts_with(x, y)
                    implies y == x by {
                    assert(abs.contains(y));
                }
            }
            if outermost_absolute_in(input, x, windows) {
                assert forall|y: Seq<PartView>| abs.contains(y) && path_starts_with(x, y) implies y == x by {
                    assert(input.contains(y) && is_absolute_spec(y, windows));
                }
            }
        }
    }
    r
}

// ---------------------------------------------------------------------------
// File names
// ---------------------------------------------------------------------------

/// `Path::file_name`: the last component when it is a name.
pub open spec fn file_name_spec(p: Seq<PartView>) -> Option<Seq<char>> {
    if p.len() > 0 && p.last() is Normal {
        Some(part_text(p.last()))
    } else {
        None
    }
}

/// `k` is the last position of `c` in `s`.
pub open spec fn is_last_index(s: Seq<char>, c: char, k: int) -> bool {
    0 <= k < s.len() && s[k] == c && forall|j: int| k < j < s.len() ==> s[j] != c
}

pub open spec fn last_index(s: Seq<char>, c: char) -> Option<int> {
    if exists|k: int| is_last_index(s, c, k) {
        Some(choose|k: int| is_last_index(s, c, k))
    } else {
        None
    }
}

/// A file name split at its last dot into stem and extension, as `Path::file_stem` and
/// `Path::extension` split it: no extension when there is no dot, when the only dot
/// leads the name, or when the name is `..`.
pub open spec fn split_name_spec(name: Seq<char>) -> (Seq<char>, Option<Seq<char>>) {
    if name == seq!['.', '.'] {
        (name, None)
    } else {
        match last_index(name, '.') {
            None => (name, None),
            Some(d) => if d == 0 {
                (name, None)
            } else {
                (name.subrange(0, d), Some(name.subrange(d + 1, name.len() as int)))
            },
        }
    }
}

/// `Path::extension`.
pub open spec fn extension_spec(p: Seq<PartView>) -> Option<Seq<char>> {
    match file_name_spec(p) {
        Some(name) => split_name_spec(name).1,
        None => None,
    }
}

/// `Path::file_stem`.
pub open spec fn file_stem_spec(p: Seq<PartView>) -> Option<Seq<char>> {
    match file_name_spec(p) {
        Some(name) => Some(split_name_spec(name).0),
        None => None,
    }
}

proof fn lemma_last_index_unique(s: Seq<char>, c: char, k: int)
    requires
        is_last_index(s, c, k),
    ensures
        last_index(s, c) == Some(k),
{
    let k2 = choose|k: int| is_last_index(s, c, k);
    assert(is_last_index(s, c, k2));
    if k2 < k {
        assert(s[k] != c);
    } else if k < k2 {
        assert(s[k2] != c);
    }
}

/// The name of the last component of `path`, when it is a name.
pub fn file_name(path: &LibPath) -> (r: Option<Vec<char>>)
    ensures
        match r {
            Some(v) => file_name_spec(path@) == Some(v@),
            None => file_name_spec(path@) is None,
        },
{
    let n = path.parts.len();
    if n == 0 {
        return None;
    }
    assert(path@.last() == path.parts@[n - 1]@);
    match &path.parts[n - 1] {
        PathPart::Normal(s) => Some(chars_of(s.as_str())),
        _ => None,
    }
}

/// Splits a file name into stem and extension (`Path::file_stem`, `Path::extension`).
pub fn split_name(name: &Vec<char>) -> (r: (Vec<char>, Option<Vec<char>>))
    ensures
        r.0@ == split_name_spec(name@).0,
        match r.1 {
            Some(e) => split_name_spec(name@).1 == Some(e@),
            None => split_name_spec(name@).1 is None,
        },
{
    let n = name.len();
    if n == 2 && name[0] == '.' && name[1] == '.' {
        assert(name@ =~= seq!['.', '.']);
        return (sub_chars(name, 0, n), None);
    }
    assert(name@ != seq!['.', '.']) by {
        if name@ == seq!['.', '.'] {
            assert(name@[0] == '.' && name@[1] == '.');
        }
    }
    let mut j: usize = n;
    while j > 0 && name[j - 1] != '.'
        invariant
            j <= n == name@.len(),
            forall|k: int| j <= k < n ==> name@[k] != '.',
        decreases j,
    {
        j -= 1;
    }
    if j == 0 {
        assert(!exists|k: int| is_last_index(name@, '.', k)) by {
            assert forall|k: int| !is_last_index(name@, '.', k) by {}
        }
        return (sub_chars(name, 0, n), None);
    }
    proof {
        lemma_last_index_unique(name@, '.', j - 1);
    }
    if j == 1 {
        return (sub_chars(name, 0, n), None);
    }
    (sub_chars(name, 0, j - 1), Some(sub_chars(name, j, n)))
}

/// `Path::extension`.
pub fn extension(path: &LibPath) -> (r: Option<Vec<char>>)
    ensures
        match r {
            Some(e) => extension_spec(path@) == Some(e@),
            None => extension_spec(path@) is None,
        },
{
    match file_name(path) {
        Some(name) => split_name(&name).1,
        None => None,
    }
}

/// `Path::file_stem`.
pub fn file_stem(path: &LibPath) -> (r: Option<Vec<char>>)
    ensures
        match r {
            Some(e) => file_stem_spec(path@) == Some(e@),
            None => file_stem_spec(path@) is None,
        },
{
    match file_name(path) {
        Some(name) => Some(split_name(&name).0),
        None => None,
    }
}

/// The name tried for a file moved next to others: its own name first, then
/// `{stem}-{n}.{extension}` (or `{stem}-{n}` without an extension) for `n` = 1, 2, ...
/// A path without a name is treated as one named `duplicate`.
pub open spec fn destination_name_spec(source: Seq<PartView>, attempt: nat) -> Seq<char> {
    let name = match file_name_spec(source) {
        Some(n) => n,
        None => seq!['d', 'u', 'p', 'l', 'i', 'c', 'a', 't', 'e'],
    };
    let stem = match file_stem_spec(source) {
        Some(s) => s,
        None => name,
    };
    if attempt == 0 {
        name
    } else {
        match extension_spec(source) {
            Some(ext) => stem + seq!['-'] + decimal(attempt) + seq!['.'] + ext,
            None => stem + seq!['-'] + decimal(attempt),
        }
    }
}

/// The `attempt`-th name to try when moving `source` into a directory without overwriting.
pub fn destination_name(source: &LibPath, attempt: u64) -> (r: String)
    ensures
        r@ == destination_name_spec(source@, attempt as nat),
{
    let name = match file_name(source) {
        Some(n) => n,
        None => {
            let mut d: Vec<char> = Vec::new();
            d.push('d'); d.push('u'); d.push('p'); d.push('l'); d.push('i');
            d.push('c'); d.push('a'); d.push('t'); d.push('e');
            assert(d@ =~= seq!['d', 'u', 'p', 'l', 'i', 'c', 'a', 't', 'e']);
            d
        },
    };
    if attempt == 0 {
        return string_from_chars(&name);
    }
    let stem = match file_stem(source) {
        Some(s) => s,
        None => name,
    };
    let mut out: Vec<char> = Vec::new();
    extend_chars(&mut out, &stem);
    out.push('-');
    let digits = decimal_chars(attempt);
    extend_chars(&mut out, &digits);
    match extension(source) {
        Some(ext) => {
            out.push('.');
            extend_chars(&mut out, &ext);
            assert(out@ =~= stem@ + seq!['-'] + decimal(attempt as nat) + seq!['.'] + ext@);
        },
        None => {
            assert(out@ =~= stem@ + seq!['-'] + decimal(attempt as nat));
        },
    }
    string_from_chars(&out)
}

/// The search for a free name in a directory: names are tried in the order of
/// [`destination_name_spec`], and the first that no file has is taken.
pub struct NameSearch {
    /// The attempt whose name is tried next.
    pub attempt: u64,
    /// For each earlier attempt, whether its name was taken.
    pub taken: Ghost<Seq<bool>>,
}

impl NameSearch {
    /// Every attempt before the current one was answered, and each of its names was taken.
    pub open spec fn wf(&self) -> bool {
        &&& self.taken@.len() == self.attempt
        &&& forall|j: int| 0 <= j < self.taken@.len() ==> #[trigger] self.taken@[j]
    }

    /// A search that starts with the file's own name.
    pub fn new() -> (r: NameSearch)
        ensures
            r.wf(),
            r.attempt == 0,
    {
        NameSearch { attempt: 0, taken: Ghost(Seq::empty()) }
    }

    /// The name to try now for `source`.
    pub fn candidate(&self, source: &LibPath) -> (r: String)
        ensures
            r@ == destination_name_spec(source@, self.attempt as nat),
    {
        destination_name(source, self.attempt)
    }

    /// Records whether the current name is taken: a free name ends the search (`true`),
    /// a taken one moves on to the next attempt. When the search ends, the name found is
    /// the first free one: every earlier name was taken.
    pub fn answer(&mut self, taken: bool) -> (found: bool)
        requires
            old(self).wf(),
            old(self).attempt < u64::MAX,
        ensures
            final(self).wf(),
            found == !taken,
            found ==> final(self).attempt == old(self).attempt,
            !found ==> final(self).attempt == old(self).attempt + 1,
            final(self).taken@.subrange(0, old(self).attempt as int) == old(self).taken@,
            found ==> forall|j: int| 0 <= j < final(self).attempt ==> #[trigger] final(self).taken@[j],
    {
        if taken {
            let ghost before = self.taken@;
            self.taken = Ghost(before.push(true));
            self.attempt = self.attempt + 1;
            assert(self.taken@.subrange(0, before.len() as int) =~= before);
            false
        } else {
            assert(self.taken@.subrange(0, self.attempt as int) =~= self.taken@);
            true
        }
    }
}

/// A copy of a path component.
pub fn copy_part(p: &PathPart) -> (r: PathPart)
    ensures
        r@ == p@,
{
    match p {
        PathPart::Prefix(x) => PathPart::Prefix(
            match x {
                PathPrefix::Verbatim(s) => PathPrefix::Verbatim(s.clone()),
                PathPrefix::VerbatimUnc(a, b) => PathPrefix::VerbatimUnc(a.clone(), b.clone()),
                PathPrefix::VerbatimDisk(c) => PathPrefix::VerbatimDisk(*c),
                PathPrefix::DeviceNs(s) => PathPrefix::DeviceNs(s.clone()),
                PathPrefix::Unc(a, b) => PathPrefix::Unc(a.clone(), b.clone()),
                PathPrefix::Disk(c) => PathPrefix::Disk(*c),
            },
        ),
        PathPart::Root => PathPart::Root,
        PathPart::Current => PathPart::Current,
        PathPart::Parent => PathPart::Parent,
        PathPart::Normal(s) => PathPart::Normal(s.clone()),
    }
}

/// A copy of a path.
pub fn copy_path(p: &LibPath) -> (r: LibPath)
    ensures
        r@ == p@,
{
    let mut parts: Vec<PathPart> = Vec::new();
    let mut i: usize = 0;
    while i < p.parts.len()
        invariant
            i <= p.parts@.len(),
            parts@.len() == i,
            forall|k: int| 0 <= k < i ==> (#[trigger] parts@[k])@ == p.parts@[k]@,
        decreases p.parts.len() - i,
    {
        parts.push(copy_part(&p.parts[i]));
        i += 1;
    }
    let r = LibPath { parts };
    assert(r@ =~= p@);
    r
}

/// `Path::with_extension`: the last name's stem followed by `.{extension}` (by nothing
/// when `extension` is empty); a path without a file name is left as it is.
pub open spec fn with_extension_spec(p: Seq<PartView>, extension: Seq<char>) -> Seq<PartView> {
    match file_stem_spec(p) {
        Some(stem) => p.update(
            p.len() - 1,
            PartView::Normal(if extension.len() == 0 { stem } else { stem + seq!['.'] + extension }),
        ),
        None => p,
    }
}

/// The path with its extension replaced (`Path::with_extension`).
pub fn with_extension(path: &LibPath, extension: &str) -> (r: LibPath)
    ensures
        r@ == with_extension_spec(path@, extension@),
{
    let mut out = copy_path(path);
    match file_stem(path) {
        Some(stem) => {
            let ghost stem_view = stem@;
            let mut name = stem;
            let ext = chars_of(extension);
            if ext.len() > 0 {
                name.push('.');
                extend_chars(&mut name, &ext);
            }
            assert(name@ =~= (if extension@.len() == 0 {
                stem_view
            } else {
                stem_view + seq!['.'] + extension@
            }));
            let n = out.parts.len();
            let ghost before = out@;
            out.parts.set(n - 1, PathPart::Normal(string_from_chars(&name)));
            assert(out@ =~= before.update(n - 1, PartView::Normal(name@)));
            out
        },
        None => out,
    }
}

/// Replacing the extension of a path whose file stem is not empty by a non-empty
/// extension without dots keeps the stem and gives the path that extension.
pub proof fn lemma_with_extension_reads_back(p: Seq<PartView>, ext: Seq<char>)
    requires
        file_stem_spec(p) matches Some(s) && s.len() > 0,
        ext.len() > 0,
        !ext.contains('.'),
    ensures
        extension_spec(with_extension_spec(p, ext)) == Some(ext),
        file_stem_spec(with_extension_spec(p, ext)) == file_stem_spec(p),
{
    let stem = file_stem_spec(p)->0;
    let name = stem + seq!['.'] + ext;
    let q = with_extension_spec(p, ext);
    assert(q.last() == PartView::Normal(name));
    assert(file_name_spec(q) == Some(name));
    let d = stem.len() as int;
    assert(name[d] == '.');
    assert forall|j: int| d < j < name.len() implies name[j] != '.' by {
        assert(name[j] == ext[j - d - 1]);
    }
    assert(is_last_index(name, '.', d));
    lemma_last_index_unique(name, '.', d);
    assert(name != seq!['.', '.']) by {
        if name == seq!['.', '.'] {
            assert(name.len() == 2);
            assert(stem.len() == 1 && ext.len() == 0);
        }
    }
    assert(name.subrange(0, d) =~= stem);
    assert(name.subrange(d + 1, name.len() as int) =~= ext);
}

// ---------------------------------------------------------------------------
// Windows verbatim prefixes
// ---------------------------------------------------------------------------

pub open spec fn verbatim_unc_prefix() -> Seq<char> { seq!['\\', '\\', '?', '\\', 'U', 'N', 'C', '\\'] }
pub open spec fn verbatim_prefix() -> Seq<char> { seq!['\\', '\\', '?', '\\'] }

/// A Windows path shown as the user would write it: `\\?\UNC\server\share` becomes
/// `\\server\share`, `\\?\C:\dir` becomes `C:\dir`; other paths are unchanged.
pub open spec fn clean_verbatim_spec(path: Seq<char>) -> Seq<char> {
    if seq_starts_with(path, verbatim_unc_prefix()) {
        seq!['\\', '\\'] + path.subrange(8, path.len() as int)
    } else if seq_starts_with(path, verbatim_prefix()) {
        path.subrange(4, path.len() as int)
    } else {
        path
    }
}

/// Removes the `\\?\` verbatim prefix that Windows canonicalization adds.
pub fn clean_windows_verbatim_path(path: &str) -> (r: String)
    ensures
        r@ == clean_verbatim_spec(path@),
{
    let v = chars_of(path);
    let mut unc: Vec<char> = Vec::new();
    unc.push('\\'); unc.push('\\'); unc.push('?'); unc.push('\\');
    unc.push('U'); unc.push('N'); unc.push('C'); unc.push('\\');
    assert(unc@ =~= verbatim_unc_prefix());
    let plain = sub_chars(&unc, 0, 4);
    assert(plain@ =~= verbatim_prefix());
    if starts_with(&v, &unc) {
        let mut out: Vec<char> = Vec::new();
        out.push('\\');
        out.push('\\');
        let rest = sub_chars(&v, 8, v.len());
        extend_chars(&mut out, &rest);
        assert(out@ =~= seq!['\\', '\\'] + v@.subrange(8, v@.len() as int));
        string_from_chars(&out)
    } else if starts_with(&v, &plain) {
        let rest = sub_chars(&v, 4, v.len());
        string_from_chars(&rest)
    } else {
        string_from_chars(&v)
    }
}

} // verus!
