//! Folder-sync settings: which relative paths are excluded, the default
//! exclusions, the sync configuration, and when pending state is written.
use vstd::prelude::*;
use vstd::slice::slice_subrange;

use crate::text::{lemma_split_single, lemma_split_concat, chars_of, last_index_of, lemma_last_index_of, rfind_char, split_bounds, split_on, string_of};

verus! {

/// Whether an exclusion pattern names an extension (`*.ext`).
pub open spec fn is_ext_pattern(p: Seq<char>) -> bool {
    p.len() >= 2 && p[0] == '*' && p[1] == '.'
}

/// The patterns of `ps` that name a whole path segment, in order.
pub open spec fn exact_patterns(ps: Seq<Seq<char>>) -> Seq<Seq<char>>
    decreases ps.len(),
{
    if ps.len() == 0 {
        seq![]
    } else if is_ext_pattern(ps.last()) {
        exact_patterns(ps.drop_last())
    } else {
        exact_patterns(ps.drop_last()).push(ps.last())
    }
}

/// The extensions named by the `*.ext` patterns of `ps`, in order.
pub open spec fn ext_patterns(ps: Seq<Seq<char>>) -> Seq<Seq<char>>
    decreases ps.len(),
{
    if ps.len() == 0 {
        seq![]
    } else if is_ext_pattern(ps.last()) {
        ext_patterns(ps.drop_last()).push(ps.last().skip(2))
    } else {
        ext_patterns(ps.drop_last())
    }
}

pub open spec fn texts(v: Seq<String>) -> Seq<Seq<char>> {
    v.map_values(|s: String| s@)
}

/// Whether a path segment is excluded: it is one of `exact`, or it has an
/// extension (after a `.` that is not its first character) that is one of
/// `exts`.
pub open spec fn segment_excluded(exact: Seq<Seq<char>>, exts: Seq<Seq<char>>, seg: Seq<char>) -> bool {
    ||| exact.contains(seg)
    ||| match last_index_of(seg, '.') {
        Some(d) => d > 0 && exts.contains(seg.subrange(d + 1, seg.len() as int)),
        None => false,
    }
}

/// Whether a `/`-separated relative path has an excluded segment.
pub open spec fn path_excluded(exact: Seq<Seq<char>>, exts: Seq<Seq<char>>, rel: Seq<char>) -> bool {
    exists|k: int| 0 <= k < split_on(rel, '/').len() && segment_excluded(exact, exts, #[trigger] split_on(rel, '/')[k])
}

/// Whether `list` holds `s`.
fn contains_text(list: &Vec<String>, s: &String) -> (r: bool)
    ensures
        r == texts(list@).contains(s@),
{
    let mut i: usize = 0;
    while i < list.len()
        invariant
            i <= list@.len(),
            forall|j: int| 0 <= j < i ==> list@[j]@ != s@,
        decreases list@.len() - i,
    {
        if list[i] == *s {
            assert(texts(list@)[i as int] == s@);
            return true;
        }
        i += 1;
    }
    proof {
        if texts(list@).contains(s@) {
            let j = choose|j: int| 0 <= j < texts(list@).len() && texts(list@)[j] == s@;
            assert(list@[j]@ == s@);
        }
    }
    false
}

/// Exclusion patterns compiled for lookup: whole segment names, and
/// extensions given as `*.ext`.
pub struct ExcludeSet {
    exact: Vec<String>,
    exts: Vec<String>,
}

impl ExcludeSet {
    /// The segment names that are excluded.
    pub closed spec fn exact_names(&self) -> Seq<Seq<char>> {
        texts(self.exact@)
    }

    /// The extensions that are excluded.
    pub closed spec fn extensions(&self) -> Seq<Seq<char>> {
        texts(self.exts@)
    }

    /// Sorts `excludes` into segment names and `*.ext` extensions.
    pub fn new(excludes: &[String]) -> (r: Self)
        ensures
            r.exact_names() == exact_patterns(excludes@.map_values(|s: String| s@)),
            r.extensions() == ext_patterns(excludes@.map_values(|s: String| s@)),
    {
        let ghost ps = excludes@.map_values(|s: String| s@);
        let mut exact: Vec<String> = Vec::new();
        let mut exts: Vec<String> = Vec::new();
        let mut i: usize = 0;
        while i < excludes.len()
            invariant
                i <= excludes@.len(),
                ps == excludes@.map_values(|s: String| s@),
                texts(exact@) == exact_patterns(ps.take(i as int)),
                texts(exts@) == ext_patterns(ps.take(i as int)),
            decreases excludes@.len() - i,
        {
            let p = &excludes[i];
            let cs = chars_of(p.as_str());
            proof {
                assert(ps.take(i + 1).drop_last() =~= ps.take(i as int));
                assert(ps.take(i + 1).last() == p@);
            }
            if cs.len() >= 2 && cs[0] == '*' && cs[1] == '.' {
                let ext = string_of(cs.as_slice(), 2, cs.len());
                assert(ext@ =~= p@.skip(2));
                exts.push(ext);
                assert(texts(exts@) =~= ext_patterns(ps.take(i + 1)));
                assert(texts(exact@) =~= exact_patterns(ps.take(i + 1)));
            } else {
                exact.push(p.clone());
                assert(texts(exact@) =~= exact_patterns(ps.take(i + 1)));
                assert(texts(exts@) =~= ext_patterns(ps.take(i + 1)));
            }
            i += 1;
        }
        assert(ps.take(excludes@.len() as int) =~= ps);
        ExcludeSet { exact, exts }
    }

    /// Whether the `/`-separated relative path `rel` has a segment that is
    /// excluded by name or by extension.
    pub fn matches(&self, rel: &str) -> (r: bool)
        ensures
            r == path_excluded(self.exact_names(), self.extensions(), rel@),
    {
        let cs = chars_of(rel);
        let bounds = split_bounds(&cs, '/');
        let mut k: usize = 0;
        while k < bounds.len()
            invariant
                cs@ == rel@,
                k <= bounds@.len(),
                bounds@.len() == split_on(cs@, '/').len(),
                forall|j: int|
                    0 <= j < bounds@.len() ==> {
                        &&& (#[trigger] bounds@[j]).0 <= bounds@[j].1 <= cs@.len()
                        &&& cs@.subrange(bounds@[j].0 as int, bounds@[j].1 as int) == split_on(cs@, '/')[j]
                    },
                forall|j: int| 0 <= j < k ==> !segment_excluded(self.exact_names(), self.extensions(), #[trigger] split_on(cs@, '/')[j]),
            decreases bounds@.len() - k,
        {
            let (a, b) = bounds[k];
            assert(bounds@[k as int] == (a, b));
            let ghost seg_view = split_on(cs@, '/')[k as int];
            let segment = string_of(cs.as_slice(), a, b);
            assert(segment@ == seg_view);
            if contains_text(&self.exact, &segment) {
                return true;
            }
            let seg = slice_subrange(cs.as_slice(), a, b);
            proof {
                lemma_last_index_of(seg@, '.');
            }
            if let Some(dot) = rfind_char(seg, '.') {
                if dot > 0 {
                    let ext = string_of(seg, dot + 1, seg.len());
                    if contains_text(&self.exts, &ext) {
                        return true;
                    }
                }
            }
            k += 1;
        }
        false
    }
}


/// The exclusion patterns a new sync configuration starts with.
pub open spec fn default_exclude_texts() -> Seq<Seq<char>> {
    seq![
        ".git"@,
        ".svn"@,
        ".hg"@,
        "node_modules"@,
        "__pycache__"@,
        "target"@,
        ".DS_Store"@,
        "Thumbs.db"@,
        "*.tmp"@,
        "*.swp"@,
    ]
}

/// Version-control folders, build and cache folders, OS metadata files and
/// editor temporaries.
pub fn default_excludes() -> (r: Vec<String>)
    ensures
        texts(r@) == default_exclude_texts(),
{
    let mut r: Vec<String> = Vec::new();
    r.push(".git".to_owned());
    r.push(".svn".to_owned());
    r.push(".hg".to_owned());
    r.push("node_modules".to_owned());
    r.push("__pycache__".to_owned());
    r.push("target".to_owned());
    r.push(".DS_Store".to_owned());
    r.push("Thumbs.db".to_owned());
    r.push("*.tmp".to_owned());
    r.push("*.swp".to_owned());
    assert(texts(r@) =~= default_exclude_texts());
    r
}

/// The folder-sync configuration that is saved between runs.
pub struct SyncConfig {
    pub src: String,
    pub dst: String,
    pub delete_removed: bool,
    pub excludes: Vec<String>,
}

impl Default for SyncConfig {
    fn default() -> (r: SyncConfig)
        ensures
            r.src@ == Seq::<char>::empty(),
            r.dst@ == Seq::<char>::empty(),
            !r.delete_removed,
            r.excludes@.len() == 0,
    {
        SyncConfig { src: String::new(), dst: String::new(), delete_removed: false, excludes: Vec::new() }
    }
}

/// Seconds that pending sync state may wait before it is written.
pub const FLUSH_DELAY_SECS: u64 = 3;

/// Whether pending sync state is written now: it has changed since the last
/// write, and at least three seconds have passed since then.
pub fn flush_due(dirty: bool, secs_since_save: u64) -> (r: bool)
    ensures
        r == (dirty && secs_since_save >= FLUSH_DELAY_SECS),
{
    dirty && secs_since_save >= FLUSH_DELAY_SECS
}


/// Everything inside an excluded folder is excluded, and an excluded file
/// stays excluded inside any folder: a `/`-joined path is excluded when
/// either part is.
pub proof fn law_exclusion_inherited(exact: Seq<Seq<char>>, exts: Seq<Seq<char>>, a: Seq<char>, b: Seq<char>)
    requires
        path_excluded(exact, exts, a) || path_excluded(exact, exts, b),
    ensures
        path_excluded(exact, exts, a + seq!['/'] + b),
{
    lemma_split_concat(a, b, '/');
    let sa = split_on(a, '/');
    let sb = split_on(b, '/');
    let s = split_on(a + seq!['/'] + b, '/');
    assert(s == sa + sb);
    if path_excluded(exact, exts, a) {
        let k = choose|k: int| 0 <= k < sa.len() && segment_excluded(exact, exts, #[trigger] sa[k]);
        assert(s[k] == sa[k]);
    } else {
        let k = choose|k: int| 0 <= k < sb.len() && segment_excluded(exact, exts, #[trigger] sb[k]);
        assert(s[sa.len() + k] == sb[k]);
    }
}

/// A pattern list names a segment exactly when it holds it as a pattern
/// that is not an extension pattern.
proof fn lemma_exact_contains(ps: Seq<Seq<char>>, p: Seq<char>)
    ensures
        exact_patterns(ps).contains(p) <==> (ps.contains(p) && !is_ext_pattern(p)),
    decreases ps.len(),
{
    if ps.len() > 0 {
        let rest = ps.drop_last();
        lemma_exact_contains(rest, p);
        assert(ps =~= rest.push(ps.last()));
        if ps.contains(p) && !is_ext_pattern(p) && !rest.contains(p) {
            let i = choose|i: int| 0 <= i < ps.len() && ps[i] == p;
            if i < rest.len() {
                assert(rest[i] == p);
            }
            assert(exact_patterns(ps).last() == p);
        }
        if exact_patterns(ps).contains(p) {
            let i = choose|i: int| 0 <= i < exact_patterns(ps).len() && exact_patterns(ps)[i] == p;
            if !is_ext_pattern(ps.last()) && i == exact_patterns(rest).len() {
                assert(ps[ps.len() - 1] == p);
            } else {
                assert(exact_patterns(rest)[i] == p);
            }
        }
        if rest.contains(p) {
            let i = choose|i: int| 0 <= i < rest.len() && rest[i] == p;
            assert(ps[i] == p);
        }
        if exact_patterns(rest).contains(p) {
            let i = choose|i: int| 0 <= i < exact_patterns(rest).len() && exact_patterns(rest)[i] == p;
            assert(exact_patterns(ps)[i] == p);
        }
    }
}

/// A pattern list names an extension exactly when it holds `*.` followed
/// by it.
proof fn lemma_ext_contains(ps: Seq<Seq<char>>, e: Seq<char>)
    ensures
        ext_patterns(ps).contains(e) <==> exists|p: Seq<char>| #[trigger] ps.contains(p) && is_ext_pattern(p) && p.skip(2) == e,
    decreases ps.len(),
{
    if ps.len() > 0 {
        let rest = ps.drop_last();
        lemma_ext_contains(rest, e);
        assert(ps =~= rest.push(ps.last()));
        if exists|p: Seq<char>| #[trigger] ps.contains(p) && is_ext_pattern(p) && p.skip(2) == e {
            let p = choose|p: Seq<char>| #[trigger] ps.contains(p) && is_ext_pattern(p) && p.skip(2) == e;
            let i = choose|i: int| 0 <= i < ps.len() && ps[i] == p;
            if i < rest.len() {
                assert(rest[i] == p);
                assert(rest.contains(p));
                let j = choose|j: int| 0 <= j < ext_patterns(rest).len() && ext_patterns(rest)[j] == e;
                assert(ext_patterns(ps)[j] == e);
            } else {
                assert(ext_patterns(ps).last() == e);
            }
        }
        if ext_patterns(ps).contains(e) {
            let i = choose|i: int| 0 <= i < ext_patterns(ps).len() && ext_patterns(ps)[i] == e;
            if is_ext_pattern(ps.last()) && i == ext_patterns(rest).len() {
                assert(ps.contains(ps.last()));
            } else {
                assert(ext_patterns(rest)[i] == e);
                assert(ext_patterns(rest).contains(e));
                let p = choose|p: Seq<char>| #[trigger] rest.contains(p) && is_ext_pattern(p) && p.skip(2) == e;
                let j = choose|j: int| 0 <= j < rest.len() && rest[j] == p;
                assert(ps[j] == p);
                assert(ps.contains(p));
            }
        }
    }
}

/// Only which patterns a list holds decides what it excludes: adding
/// patterns never un-excludes a path, and neither does reordering them.
pub proof fn law_exclusion_monotone(xs: Seq<Seq<char>>, zs: Seq<Seq<char>>, rel: Seq<char>)
    requires
        forall|p: Seq<char>| xs.contains(p) ==> zs.contains(p),
        path_excluded(exact_patterns(xs), ext_patterns(xs), rel),
    ensures
        path_excluded(exact_patterns(zs), ext_patterns(zs), rel),
{
    let segs = split_on(rel, '/');
    let k = choose|k: int| 0 <= k < segs.len() && segment_excluded(exact_patterns(xs), ext_patterns(xs), #[trigger] segs[k]);
    let seg = segs[k];
    lemma_exact_contains(xs, seg);
    lemma_exact_contains(zs, seg);
    match last_index_of(seg, '.') {
        Some(d) => {
            let e = seg.subrange(d + 1, seg.len() as int);
            lemma_ext_contains(xs, e);
            lemma_ext_contains(zs, e);
            if d > 0 && ext_patterns(xs).contains(e) {
                let p = choose|p: Seq<char>| #[trigger] xs.contains(p) && is_ext_pattern(p) && p.skip(2) == e;
                assert(zs.contains(p));
            }
        },
        None => {},
    }
    assert(segment_excluded(exact_patterns(zs), ext_patterns(zs), segs[k]));
}

/// A file name is excluded by its extension whatever it starts with: a
/// name made of a non-empty stem, a dot and an excluded extension (without
/// dots) is excluded, hidden names such as `.main.rs.swp` included, and so
/// is any path that ends in it.
pub proof fn law_extension_excludes(
    exact: Seq<Seq<char>>,
    exts: Seq<Seq<char>>,
    dir: Seq<char>,
    stem: Seq<char>,
    ext: Seq<char>,
)
    requires
        stem.len() > 0,
        !stem.contains('/'),
        !ext.contains('/'),
        !ext.contains('.'),
        exts.contains(ext),
    ensures
        path_excluded(exact, exts, stem + seq!['.'] + ext),
        path_excluded(exact, exts, dir + seq!['/'] + (stem + seq!['.'] + ext)),
{
    let seg = stem + seq!['.'] + ext;
    let d = stem.len() as int;
    assert(seg[d] == '.');
    lemma_last_index_of(seg, '.');
    match last_index_of(seg, '.') {
        Some(i) => {
            if i > d {
                assert(ext[i - d - 1] == seg[i]);
                assert(ext.contains('.'));
            }
            assert(i == d);
        },
        None => {
            assert(false);
        },
    }
    assert(seg.subrange(d + 1, seg.len() as int) =~= ext);
    assert(segment_excluded(exact, exts, seg));
    assert(!seg.contains('/')) by {
        if seg.contains('/') {
            let j = choose|j: int| 0 <= j < seg.len() && seg[j] == '/';
            if j < d {
                assert(stem[j] == '/');
                assert(stem.contains('/'));
            } else if j > d {
                assert(ext[j - d - 1] == '/');
                assert(ext.contains('/'));
            }
        }
    }
    lemma_split_single(seg, '/');
    assert(split_on(seg, '/')[0] == seg);
    law_exclusion_inherited(exact, exts, dir, seg);
}

} // verus!
