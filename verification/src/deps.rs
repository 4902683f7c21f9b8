//! Dependency classification for `deps`.
//!
//! Classification is a deterministic function of the extracted imports, the
//! ignore globs, the analyzed file's directory relative to the workspace
//! root (the directory the command runs in), and whether a bare target's
//! candidate files exist at that root. The caller probes the file system;
//! this module decides.

use vstd::prelude::*;
use crate::imports::Import;
use crate::seqs::{split_on, index_of, lemma_index_of, has_char, starts_with};
use crate::signature::find_char;
use crate::syntax::str_eq;
use crate::symbol::range_len;
use crate::text::{chars_of, string_from, copy_range, push_all, push_str};

verus! {

/// How an import target relates to the workspace.
#[derive(Debug, Clone, Copy, PartialEq, Eq, Structural)]
pub enum DepKind {
    /// In-crate or relative import, or a bare target that resolves under the
    /// workspace root.
    Local,
    /// Anything else: crates, stdlib, npm packages, remote modules.
    External,
    /// Target matches an ignore glob.
    Ignored,
}

/// An import with its resolved kind.
#[derive(Debug, Clone, PartialEq, Eq)]
pub struct ResolvedImport {
    pub target: String,
    pub kind: DepKind,
    pub line: usize,
    /// Byte length of the import statement in the original source.
    pub bytes: usize,
}

/// Whether any existence candidate of a bare target was found at the
/// workspace root.
#[derive(Debug, Clone, Copy, PartialEq, Eq, Structural)]
pub struct CandidateHits {
    pub at_root: bool,
}

/// `segs` joined by `sep`.
pub open spec fn join_with(segs: Seq<Seq<char>>, sep: char) -> Seq<char>
    decreases segs.len(),
{
    if segs.len() == 0 {
        seq![]
    } else if segs.len() == 1 {
        segs[0]
    } else {
        join_with(segs.drop_last(), sep).push(sep) + segs.last()
    }
}

/// Segments kept after `pieces`, from `acc`: empty and `.` segments are
/// dropped, `..` drops the last kept one.
pub open spec fn norm_fold(pieces: Seq<Seq<char>>, acc: Seq<Seq<char>>) -> Seq<Seq<char>>
    decreases pieces.len(),
{
    if pieces.len() == 0 {
        acc
    } else {
        let p = pieces[0];
        norm_fold(
            pieces.drop_first(),
            if p.len() == 0 || p == seq!['.'] {
                acc
            } else if p == seq!['.', '.'] {
                if acc.len() > 0 {
                    acc.drop_last()
                } else {
                    acc
                }
            } else {
                acc.push(p)
            },
        )
    }
}

/// `path` with `.` and `..` segments resolved and empty ones dropped.
pub open spec fn normalized(path: Seq<char>) -> Seq<char> {
    join_with(norm_fold(split_on(path, '/'), seq![]), '/')
}

proof fn lemma_join_push(segs: Seq<Seq<char>>, w: Seq<char>, sep: char)
    ensures
        join_with(segs.push(w), sep) == if segs.len() == 0 {
            w
        } else {
            join_with(segs, sep).push(sep) + w
        },
{
    assert(segs.push(w).drop_last() == segs);
    if segs.len() == 0 {
        assert(segs.push(w)[0] == w);
    }
}

/// `segs` joined by `sep`.
pub(crate) fn join_segments(segs: &Vec<Vec<char>>, sep: char) -> (r: Vec<char>)
    ensures
        r@ == join_with(segs@.map_values(|s: Vec<char>| s@), sep),
{
    let ghost views = segs@.map_values(|s: Vec<char>| s@);
    let mut out: Vec<char> = Vec::new();
    let mut k: usize = 0;
    while k < segs.len()
        invariant
            k <= segs@.len(),
            views == segs@.map_values(|s: Vec<char>| s@),
            out@ == join_with(views.take(k as int), sep),
        decreases segs@.len() - k,
    {
        proof {
            lemma_join_push(views.take(k as int), views[k as int], sep);
            assert(views.take(k + 1) == views.take(k as int).push(views[k as int]));
        }
        if k > 0 {
            out.push(sep);
        }
        push_all(&mut out, segs[k].as_slice());
        k += 1;
    }
    assert(views.take(segs@.len() as int) == views);
    out
}

/// Resolve `.` and `..` segments and drop empty ones.
pub fn normalize(path: &str) -> (r: String)
    ensures
        r@ == normalized(path@),
{
    let v = chars_of(path);
    let len = v.len();
    let mut segs: Vec<Vec<char>> = Vec::new();
    let mut start: usize = 0;
    proof {
        assert(v@.skip(0) == v@);
        assert(segs@.map_values(|s: Vec<char>| s@) =~= Seq::<Seq<char>>::empty());
    }
    loop
        invariant
            start <= len == v@.len(),
            v@ == path@,
            norm_fold(split_on(v@, '/'), seq![]) == norm_fold(
                split_on(v@.skip(start as int), '/'),
                segs@.map_values(|s: Vec<char>| s@),
            ),
        decreases len - start,
    {
        let ghost t = v@.skip(start as int);
        let ghost acc = segs@.map_values(|s: Vec<char>| s@);
        assert(t == v@.subrange(start as int, len as int));
        let end = find_char(v.as_slice(), start, len, '/');
        let ghost piece = v@.subrange(start as int, end as int);
        proof {
            lemma_index_of(t, '/');
            assert(t.take(end - start) == piece);
            if end < len {
                assert(t.skip(end - start + 1) == v@.skip(end + 1));
                assert(split_on(t, '/') == seq![piece] + split_on(v@.skip(end + 1), '/'));
            } else {
                assert(t.take(end - start) == t);
                assert(split_on(t, '/') == seq![piece]);
            }
            assert(split_on(t, '/')[0] == piece);
        }
        let n = end - start;
        let is_dot = n == 1 && v[start] == '.';
        let is_dotdot = n == 2 && v[start] == '.' && v[start + 1] == '.';
        proof {
            if n == 1 {
                assert(piece[0] == v@[start as int]);
                if is_dot {
                    assert(piece =~= seq!['.']);
                } else {
                    assert(piece[0] != seq!['.'][0]);
                }
            } else {
                assert(piece.len() != seq!['.'].len());
            }
            if n == 2 {
                assert(piece[0] == v@[start as int]);
                assert(piece[1] == v@[start + 1]);
                if is_dotdot {
                    assert(piece =~= seq!['.', '.']);
                } else {
                    assert(piece[0] != seq!['.', '.'][0] || piece[1] != seq!['.', '.'][1]);
                }
            } else {
                assert(piece.len() != seq!['.', '.'].len());
            }
        }
        let ghost next_acc = if piece.len() == 0 || piece == seq!['.'] {
            acc
        } else if piece == seq!['.', '.'] {
            if acc.len() > 0 {
                acc.drop_last()
            } else {
                acc
            }
        } else {
            acc.push(piece)
        };
        proof {
            assert(norm_fold(split_on(t, '/'), acc) == norm_fold(split_on(t, '/').drop_first(), next_acc));
        }
        if n == 0 || is_dot {
        } else if is_dotdot {
            if segs.len() > 0 {
                segs.pop();
                assert(segs@.map_values(|s: Vec<char>| s@) == acc.drop_last());
            }
        } else {
            let seg = copy_range(v.as_slice(), start, end);
            segs.push(seg);
            assert(segs@.map_values(|s: Vec<char>| s@) == acc.push(piece));
        }
        assert(segs@.map_values(|s: Vec<char>| s@) == next_acc);
        if end == len {
            proof {
                assert(seq![piece].drop_first() =~= Seq::<Seq<char>>::empty());
                assert(split_on(t, '/').drop_first() =~= Seq::<Seq<char>>::empty());
                assert(norm_fold(Seq::<Seq<char>>::empty(), next_acc) == next_acc);
                assert(norm_fold(split_on(v@, '/'), seq![]) == next_acc);
            }
            let r = join_segments(&segs, '/');
            return string_from(r.as_slice());
        }
        proof {
            assert(split_on(t, '/').drop_first() == split_on(v@.skip(end + 1), '/'));
        }
        start = end + 1;
    }
}

/// `p` matches `t`: `*` matches any run of characters (across `/` too),
/// `?` any one character, anything else itself.
pub open spec fn glob(p: Seq<char>, t: Seq<char>) -> bool
    decreases p.len(), t.len(),
{
    if p.len() == 0 {
        t.len() == 0
    } else if p[0] == '*' {
        glob(p.drop_first(), t) || (t.len() > 0 && glob(p, t.drop_first()))
    } else if t.len() == 0 {
        false
    } else if p[0] == '?' || p[0] == t[0] {
        glob(p.drop_first(), t.drop_first())
    } else {
        false
    }
}

fn false_row(n: usize) -> (r: Vec<bool>)
    ensures
        r@.len() == n,
        forall|b: int| 0 <= b < n ==> !(#[trigger] r@[b]),
{
    let mut r: Vec<bool> = Vec::new();
    while r.len() < n
        invariant
            r@.len() <= n,
            forall|b: int| 0 <= b < r@.len() ==> !(#[trigger] r@[b]),
        decreases n - r@.len(),
    {
        r.push(false);
    }
    r
}

/// Glob matching, as `glob` states it, by dynamic programming over the
/// suffixes of pattern and text (polynomial on any pattern).
pub fn glob_match(pattern: &str, text: &str) -> (r: bool)
    ensures
        r == glob(pattern@, text@),
{
    let p = chars_of(pattern);
    let t = chars_of(text);
    let pl = p.len();
    let tl = t.len();
    // Row `i`: next[b] == glob(p[i..], t[b..]) for b < tl, and next_end
    // for b == tl.
    let mut next = false_row(tl);
    let mut next_end = true;
    proof {
        assert(p@.skip(pl as int).len() == 0);
        assert forall|b: int| 0 <= b < tl implies #[trigger] next@[b] == glob(
            p@.skip(pl as int),
            t@.skip(b),
        ) by {}
        assert(t@.skip(tl as int).len() == 0);
    }
    let mut i = pl;
    while i > 0
        invariant
            pl == p@.len(),
            tl == t@.len(),
            i <= pl,
            next@.len() == tl,
            forall|b: int| 0 <= b < tl ==> #[trigger] next@[b] == glob(p@.skip(i as int), t@.skip(b)),
            next_end == glob(p@.skip(i as int), t@.skip(tl as int)),
        decreases i,
    {
        let pi = p[i - 1];
        let ghost ps = p@.skip(i - 1);
        assert(ps.drop_first() == p@.skip(i as int));
        assert(ps[0] == pi);
        let cur_end = if pi == '*' {
            next_end
        } else {
            false
        };
        proof {
            assert(t@.skip(tl as int).len() == 0);
        }
        let mut cur = false_row(tl);
        let mut j = tl;
        while j > 0
            invariant
                j <= tl == t@.len(),
                cur@.len() == tl,
                next@.len() == tl,
                ps == p@.skip(i - 1),
                ps.len() > 0,
                ps[0] == pi,
                ps.drop_first() == p@.skip(i as int),
                forall|b: int| 0 <= b < tl ==> #[trigger] next@[b] == glob(ps.drop_first(), t@.skip(b)),
                next_end == glob(ps.drop_first(), t@.skip(tl as int)),
                cur_end == glob(ps, t@.skip(tl as int)),
                forall|b: int| j <= b < tl ==> #[trigger] cur@[b] == glob(ps, t@.skip(b)),
            decreases j,
        {
            let b = j - 1;
            let ghost ts = t@.skip(b as int);
            proof {
                assert(ts.drop_first() == t@.skip(b + 1));
                assert(ts[0] == t@[b as int]);
            }
            let after = if b + 1 < tl {
                cur[b + 1]
            } else {
                cur_end
            };
            let after_next = if b + 1 < tl {
                next[b + 1]
            } else {
                next_end
            };
            let v = if pi == '*' {
                next[b] || after
            } else if pi == '?' || pi == t[b] {
                after_next
            } else {
                false
            };
            cur.set(b, v);
            j = b;
        }
        next = cur;
        next_end = cur_end;
        i -= 1;
    }
    assert(p@.skip(0) == p@);
    assert(t@.skip(0) == t@);
    if tl == 0 {
        next_end
    } else {
        next[0]
    }
}

/// Segment `seg` of a path, or the whole path when the pattern holds a
/// `/`, matches `pattern`.
pub open spec fn pattern_matches(pattern: Seq<char>, norm: Seq<char>) -> bool {
    if has_char(pattern, '/') {
        glob(pattern, norm)
    } else {
        exists|k: int| 0 <= k < split_on(norm, '/').len() && glob(pattern, #[trigger] split_on(norm, '/')[k])
    }
}

/// The project-relative path has a segment matching one of the ignore
/// globs, or matches a glob that holds a `/` as a whole.
pub open spec fn ignored(path: Seq<char>, ignore: Seq<Seq<char>>) -> bool {
    exists|k: int| 0 <= k < ignore.len() && pattern_matches(#[trigger] ignore[k], normalized(path))
}

fn segment_matches(pattern: &str, norm: &Vec<char>) -> (r: bool)
    ensures
        r == (exists|k: int|
            0 <= k < split_on(norm@, '/').len() && glob(pattern@, #[trigger] split_on(norm@, '/')[k])),
{
    let len = norm.len();
    let mut start: usize = 0;
    let ghost pieces = split_on(norm@, '/');
    let ghost mut seen: int = 0;
    proof {
        assert(norm@.skip(0) == norm@);
    }
    loop
        invariant
            start <= len == norm@.len(),
            pieces == split_on(norm@, '/'),
            0 <= seen <= pieces.len(),
            pieces.skip(seen) == split_on(norm@.skip(start as int), '/'),
            forall|k: int| 0 <= k < seen ==> !glob(pattern@, #[trigger] pieces[k]),
        decreases len - start,
    {
        let ghost t = norm@.skip(start as int);
        assert(t == norm@.subrange(start as int, len as int));
        let end = find_char(norm.as_slice(), start, len, '/');
        let ghost piece = norm@.subrange(start as int, end as int);
        proof {
            lemma_index_of(t, '/');
            assert(t.take(end - start) == piece);
            if end < len {
                assert(t.skip(end - start + 1) == norm@.skip(end + 1));
                assert(split_on(t, '/') == seq![piece] + split_on(norm@.skip(end + 1), '/'));
            } else {
                assert(t.take(end - start) == t);
                assert(split_on(t, '/') == seq![piece]);
            }
            assert(pieces[seen] == pieces.skip(seen)[0]);
            assert(pieces[seen] == piece);
        }
        let seg = copy_range(norm.as_slice(), start, end);
        let s = string_from(seg.as_slice());
        if glob_match(pattern, s.as_str()) {
            return true;
        }
        if end == len {
            proof {
                assert(pieces.skip(seen).len() == 1);
                assert forall|k: int| 0 <= k < pieces.len() implies !glob(pattern@, #[trigger] pieces[k]) by {
                    if k > seen {
                        assert(pieces.skip(seen).len() == pieces.len() - seen);
                    }
                }
            }
            return false;
        }
        proof {
            assert(pieces.skip(seen + 1) == pieces.skip(seen).drop_first());
            seen = seen + 1;
        }
        start = end + 1;
    }
}

/// True if the project-relative path contains a segment matching one of the
/// ignore globs, or the whole path matches a slash-containing pattern.
pub fn is_ignored(path: &str, ignore: &[String]) -> (r: bool)
    ensures
        r == ignored(path@, ignore@.map_values(|s: String| s@)),
{
    let norm = normalize(path);
    let nv = chars_of(norm.as_str());
    let ghost pats = ignore@.map_values(|s: String| s@);
    let mut k: usize = 0;
    while k < ignore.len()
        invariant
            k <= ignore@.len(),
            pats == ignore@.map_values(|s: String| s@),
            nv@ == normalized(path@),
            norm@ == normalized(path@),
            forall|m: int| 0 <= m < k ==> !pattern_matches(#[trigger] pats[m], normalized(path@)),
        decreases ignore@.len() - k,
    {
        let pat = ignore[k].as_str();
        assert(pats[k as int] == pat@);
        let pv = chars_of(pat);
        let mut slash = false;
        let mut q: usize = 0;
        while q < pv.len()
            invariant
                pv@ == pat@,
                q <= pv@.len(),
                slash == (exists|z: int| 0 <= z < q && pv@[z] == '/'),
            decreases pv@.len() - q,
        {
            if pv[q] == '/' {
                slash = true;
            }
            q += 1;
        }
        assert(slash == has_char(pats[k as int], '/'));
        assert(norm@ == normalized(path@));
        let hit = if slash {
            glob_match(pat, norm.as_str())
        } else {
            segment_matches(pat, &nv)
        };
        if hit {
            assert(pattern_matches(pats[k as int], normalized(path@)));
            return true;
        }
        k += 1;
    }
    false
}

/// Number of leading `.` characters.
pub open spec fn leading_dots(s: Seq<char>) -> nat
    decreases s.len(),
{
    if s.len() > 0 && s[0] == '.' {
        1 + leading_dots(s.drop_first())
    } else {
        0
    }
}

/// `n` copies of `..`.
pub open spec fn ups(n: nat) -> Seq<Seq<char>> {
    Seq::new(n, |k: int| seq!['.', '.'])
}

/// The import target as a relative path: `./` and `../` forms kept
/// verbatim; python leading-dot forms become `..` jumps (n dots, n - 1
/// levels up) followed by the rest of the target.
pub open spec fn relative_path(target: Seq<char>) -> Seq<char> {
    if target.len() > 0 && target[0] == '.' && !starts_with(target, seq!['.', '/']) && !starts_with(
        target,
        seq!['.', '.', '/'],
    ) {
        let d = leading_dots(target);
        let rest = target.skip(d as int);
        join_with(
            if rest.len() > 0 {
                ups((d - 1) as nat).push(rest)
            } else {
                ups((d - 1) as nat)
            },
            '/',
        )
    } else {
        target
    }
}

/// The import target as a relative path fragment, as `relative_path`
/// states it.
pub fn relative_target(imp: &Import) -> (r: String)
    ensures
        r@ == relative_path(imp.target@),
{
    let v = chars_of(imp.target.as_str());
    let n = v.len();
    let dotted = n > 0 && v[0] == '.' && !(n >= 2 && v[1] == '/') && !(n >= 3 && v[1] == '.' && v[2]
        == '/');
    proof {
        if n >= 2 {
            assert(v@.take(2) =~= seq![v@[0], v@[1]]);
        }
        if n >= 3 {
            assert(v@.take(3) =~= seq![v@[0], v@[1], v@[2]]);
        }
    }
    if !dotted {
        return imp.target.clone();
    }
    let mut d: usize = 0;
    assert(v@.skip(0) == v@);
    while d < n && v[d] == '.'
        invariant
            d <= n == v@.len(),
            leading_dots(v@) == d + leading_dots(v@.skip(d as int)),
        decreases n - d,
    {
        assert(v@.skip(d as int).drop_first() == v@.skip(d + 1));
        assert(v@.skip(d as int)[0] == v@[d as int]);
        d += 1;
    }
    proof {
        if d < n {
            assert(v@.skip(d as int)[0] == v@[d as int]);
        }
    }
    let mut segs: Vec<Vec<char>> = Vec::new();
    let mut k: usize = 1;
    while k < d
        invariant
            1 <= k <= d,
            segs@.map_values(|s: Vec<char>| s@) == ups((k - 1) as nat),
        decreases d - k,
    {
        let mut up: Vec<char> = Vec::new();
        up.push('.');
        up.push('.');
        assert(up@ =~= seq!['.', '.']);
        let ghost before = segs@.map_values(|s: Vec<char>| s@);
        segs.push(up);
        assert(segs@.map_values(|s: Vec<char>| s@) =~= before.push(up@));
        assert(ups(k as nat) =~= ups((k - 1) as nat).push(seq!['.', '.']));
        k += 1;
    }
    assert(v@.skip(d as int) == v@.subrange(d as int, n as int));
    if d < n {
        let rest = copy_range(v.as_slice(), d, n);
        let ghost before = segs@.map_values(|s: Vec<char>| s@);
        segs.push(rest);
        assert(segs@.map_values(|s: Vec<char>| s@) =~= before.push(v@.skip(d as int)));
    }
    let out = join_segments(&segs, '/');
    string_from(out.as_slice())
}

/// The non-empty ones among `pieces`.
pub open spec fn non_empty(pieces: Seq<Seq<char>>) -> Seq<Seq<char>>
    decreases pieces.len(),
{
    if pieces.len() == 0 {
        seq![]
    } else if pieces.last().len() == 0 {
        non_empty(pieces.drop_last())
    } else {
        non_empty(pieces.drop_last()).push(pieces.last())
    }
}

/// The path whose components are the non-empty pieces of `target` split
/// at `sep`.
pub open spec fn target_path(target: Seq<char>, sep: char) -> Seq<Seq<char>> {
    non_empty(split_on(target, sep))
}

/// `Path::with_extension` on a path given by its components: the file
/// name's extension (after its last `.`, unless that leads it) replaced or
/// added; a path without a file name (empty, or ending in `..`) unchanged.
pub open spec fn with_extension(segs: Seq<Seq<char>>, ext: Seq<char>) -> Seq<char> {
    if segs.len() == 0 || segs.last() == seq!['.', '.'] {
        join_with(segs, '/')
    } else {
        let name = segs.last();
        let k = crate::paths::last_index(name, '.');
        let stem = if k > 0 {
            name.take(k)
        } else {
            name
        };
        join_with(segs.drop_last().push(stem.push('.') + ext), '/')
    }
}

/// `Path::join` of a relative component onto a path.
pub open spec fn join_path(segs: Seq<Seq<char>>, name: Seq<char>) -> Seq<char> {
    join_with(segs.push(name), '/')
}

/// File and directory candidates for a bare target, relative to an anchor
/// directory: for python the module path, `.py`, package `__init__.py`
/// and `.pyi`; for go the package path and `.go`; for java and C# the
/// type path and `.java` / `.cs`; none for other languages.
pub open spec fn candidates(language: Seq<char>, target: Seq<char>) -> Seq<Seq<char>> {
    if language == "python"@ {
        let segs = target_path(target, '.');
        seq![
            join_with(segs, '/'),
            with_extension(segs, "py"@),
            join_path(segs, "__init__.py"@),
            with_extension(segs, "pyi"@),
        ]
    } else if language == "go"@ {
        let segs = target_path(target, '/');
        seq![join_with(segs, '/'), with_extension(segs, "go"@)]
    } else if language == "java"@ {
        let segs = target_path(target, '.');
        seq![join_with(segs, '/'), with_extension(segs, "java"@)]
    } else if language == "csharp"@ {
        let segs = target_path(target, '.');
        seq![join_with(segs, '/'), with_extension(segs, "cs"@)]
    } else {
        seq![]
    }
}

/// The non-empty pieces of `v` split at `sep`.
pub(crate) fn split_non_empty(v: &[char], sep: char) -> (r: Vec<Vec<char>>)
    ensures
        r@.map_values(|s: Vec<char>| s@) == target_path(v@, sep),
{
    let len = v.len();
    let mut segs: Vec<Vec<char>> = Vec::new();
    let mut start: usize = 0;
    let ghost mut done: Seq<Seq<char>> = seq![];
    proof {
        assert(v@.skip(0) == v@);
        assert(segs@.map_values(|s: Vec<char>| s@) =~= Seq::<Seq<char>>::empty());
        assert(done + split_on(v@, sep) =~= split_on(v@, sep));
    }
    loop
        invariant
            start <= len == v@.len(),
            done + split_on(v@.skip(start as int), sep) == split_on(v@, sep),
            segs@.map_values(|s: Vec<char>| s@) == non_empty(done),
        decreases len - start,
    {
        let ghost t = v@.skip(start as int);
        assert(t == v@.subrange(start as int, len as int));
        let end = find_char(v, start, len, sep);
        let ghost piece = v@.subrange(start as int, end as int);
        proof {
            lemma_index_of(t, sep);
            assert(t.take(end - start) == piece);
            if end < len {
                assert(t.skip(end - start + 1) == v@.skip(end + 1));
                assert(split_on(t, sep) == seq![piece] + split_on(v@.skip(end + 1), sep));
            } else {
                assert(t.take(end - start) == t);
                assert(split_on(t, sep) == seq![piece]);
            }
            assert(done.push(piece).drop_last() == done);
            assert(done.push(piece).last() == piece);
        }
        let ghost before = segs@.map_values(|s: Vec<char>| s@);
        if end > start {
            let seg = copy_range(v, start, end);
            segs.push(seg);
            assert(segs@.map_values(|s: Vec<char>| s@) =~= before.push(piece));
        }
        proof {
            done = done.push(piece);
        }
        if end == len {
            assert(done == split_on(v@, sep));
            return segs;
        }
        proof {
            assert(done + split_on(v@.skip(end + 1), sep) == split_on(v@, sep));
        }
        start = end + 1;
    }
}

fn seq_of_str(s: &str) -> (v: Vec<char>)
    ensures
        v@ == s@,
{
    chars_of(s)
}

/// `with_extension` on a path given by its components.
fn extension_path(segs: &Vec<Vec<char>>, ext: &str) -> (r: String)
    ensures
        r@ == with_extension(segs@.map_values(|s: Vec<char>| s@), ext@),
{
    let ghost views = segs@.map_values(|s: Vec<char>| s@);
    let n = segs.len();
    if n == 0 {
        let j = join_segments(segs, '/');
        return string_from(j.as_slice());
    }
    let last = &segs[n - 1];
    assert(views.last() == last@);
    let m = last.len();
    if m == 2 && last[0] == '.' && last[1] == '.' {
        assert(last@ =~= seq!['.', '.']);
        let j = join_segments(segs, '/');
        return string_from(j.as_slice());
    }
    proof {
        if last@ == seq!['.', '.'] {
            assert(last@[0] == '.' && last@[1] == '.');
        }
    }
    let mut k = m;
    while k > 0 && last[k - 1] != '.'
        invariant
            k <= m == last@.len(),
            forall|z: int| k <= z < m ==> last@[z] != '.',
        decreases k,
    {
        k -= 1;
    }
    let ghost li = crate::paths::last_index(last@, '.');
    proof {
        crate::paths::lemma_last_index_at(last@, '.', k - 1);
    }
    let mut name: Vec<char> = if k > 1 {
        copy_range(last.as_slice(), 0, k - 1)
    } else {
        copy_range(last.as_slice(), 0, m)
    };
    assert(last@.subrange(0, m as int) == last@);
    assert(k > 1 ==> last@.take(k - 1) == last@.subrange(0, k - 1));
    name.push('.');
    let e = seq_of_str(ext);
    push_all(&mut name, e.as_slice());
    let mut out: Vec<Vec<char>> = Vec::new();
    let mut i: usize = 0;
    while i < n - 1
        invariant
            i <= n - 1,
            n == segs@.len(),
            views == segs@.map_values(|s: Vec<char>| s@),
            out@.map_values(|s: Vec<char>| s@) == views.take(i as int),
        decreases n - 1 - i,
    {
        let c = copy_range(segs[i].as_slice(), 0, segs[i].len());
        assert(segs[i as int]@.subrange(0, segs[i as int]@.len() as int) == segs[i as int]@);
        let ghost before = out@.map_values(|s: Vec<char>| s@);
        out.push(c);
        assert(out@.map_values(|s: Vec<char>| s@) =~= before.push(c@));
        assert(views[i as int] == segs@[i as int]@);
        assert(views.take(i + 1) =~= views.take(i as int).push(views[i as int]));
        i += 1;
    }
    let ghost head = out@.map_values(|s: Vec<char>| s@);
    out.push(name);
    assert(views.drop_last() == views.take(n - 1));
    assert(out@.map_values(|s: Vec<char>| s@) =~= head.push(name@));
    let j = join_segments(&out, '/');
    string_from(j.as_slice())
}

/// `with_extension` joined path built from components plus one more.
fn joined_with(segs: &Vec<Vec<char>>, name: &str) -> (r: String)
    ensures
        r@ == join_path(segs@.map_values(|s: Vec<char>| s@), name@),
{
    let ghost views = segs@.map_values(|s: Vec<char>| s@);
    let mut out: Vec<Vec<char>> = Vec::new();
    let mut i: usize = 0;
    let n = segs.len();
    while i < n
        invariant
            i <= n == segs@.len(),
            views == segs@.map_values(|s: Vec<char>| s@),
            out@.map_values(|s: Vec<char>| s@) == views.take(i as int),
        decreases n - i,
    {
        let c = copy_range(segs[i].as_slice(), 0, segs[i].len());
        assert(segs[i as int]@.subrange(0, segs[i as int]@.len() as int) == segs[i as int]@);
        let ghost before = out@.map_values(|s: Vec<char>| s@);
        out.push(c);
        assert(out@.map_values(|s: Vec<char>| s@) =~= before.push(c@));
        assert(views[i as int] == segs@[i as int]@);
        assert(views.take(i + 1) =~= views.take(i as int).push(views[i as int]));
        i += 1;
    }
    assert(views.take(n as int) == views);
    let ghost before = out@.map_values(|s: Vec<char>| s@);
    out.push(seq_of_str(name));
    assert(out@.map_values(|s: Vec<char>| s@) =~= before.push(name@));
    let j = join_segments(&out, '/');
    string_from(j.as_slice())
}

/// The path given by its components.
fn joined(segs: &Vec<Vec<char>>) -> (r: String)
    ensures
        r@ == join_with(segs@.map_values(|s: Vec<char>| s@), '/'),
{
    let j = join_segments(segs, '/');
    string_from(j.as_slice())
}

/// File/dir candidates for a bare target, as `candidates` states them.
pub fn existence_candidates(language: &str, target: &str) -> (r: Vec<String>)
    ensures
        r@.map_values(|s: String| s@) == candidates(language@, target@),
{
    let tv = chars_of(target);
    let mut out: Vec<String> = Vec::new();
    if str_eq(language, "python") {
        let segs = split_non_empty(tv.as_slice(), '.');
        out.push(joined(&segs));
        out.push(extension_path(&segs, "py"));
        out.push(joined_with(&segs, "__init__.py"));
        out.push(extension_path(&segs, "pyi"));
    } else if str_eq(language, "go") {
        let segs = split_non_empty(tv.as_slice(), '/');
        out.push(joined(&segs));
        out.push(extension_path(&segs, "go"));
    } else if str_eq(language, "java") {
        let segs = split_non_empty(tv.as_slice(), '.');
        out.push(joined(&segs));
        out.push(extension_path(&segs, "java"));
    } else if str_eq(language, "csharp") {
        let segs = split_non_empty(tv.as_slice(), '.');
        out.push(joined(&segs));
        out.push(extension_path(&segs, "cs"));
    }
    assert(out@.map_values(|s: String| s@) =~= candidates(language@, target@));
    out
}

/// Index of the first `::` in `t`, or `t.len()`.
pub open spec fn first_path_sep(t: Seq<char>) -> int
    decreases t.len(),
{
    if t.len() < 2 {
        t.len() as int
    } else if t[0] == ':' && t[1] == ':' {
        0
    } else {
        1 + first_path_sep(t.drop_first())
    }
}

/// The first `::`-separated segment of a path.
pub open spec fn first_segment(t: Seq<char>) -> Seq<char> {
    t.take(first_path_sep(t))
}

/// `Path::join`: a relative fragment onto a directory.
pub open spec fn join_rel(base: Seq<char>, rel: Seq<char>) -> Seq<char> {
    if (rel.len() > 0 && rel[0] == '/') || base.len() == 0 {
        rel
    } else {
        base.push('/') + rel
    }
}

/// The languages whose bare targets are probed on disk.
pub open spec fn probed_language(language: Seq<char>) -> bool {
    language == "python"@ || language == "go"@ || language == "java"@ || language == "csharp"@
}

/// The kind of one import. `base` is the analyzed file's directory
/// relative to the workspace root; `mods` the rust `mod x;` declarations of
/// the file; `hits` where the target's existence candidates were found.
pub open spec fn dep_kind(
    target: Seq<char>,
    relative: bool,
    language: Seq<char>,
    base: Seq<char>,
    ignore: Seq<Seq<char>>,
    mods: Seq<Seq<char>>,
    hits: CandidateHits,
) -> DepKind {
    if relative {
        if language == "rust"@ {
            DepKind::Local
        } else if ignored(normalized(join_rel(base, relative_path(target))), ignore) {
            DepKind::Ignored
        } else {
            DepKind::Local
        }
    } else if ignored(target, ignore) {
        DepKind::Ignored
    } else if language == "rust"@ && mods.contains(first_segment(target)) {
        DepKind::Local
    } else if probed_language(language) {
        if hits.at_root {
            DepKind::Local
        } else {
            DepKind::External
        }
    } else {
        DepKind::External
    }
}

/// The rust `mod x;` declarations among the imports: relative targets
/// without `::`.
pub open spec fn local_modules(imports: Seq<Import>, language: Seq<char>) -> Seq<Seq<char>>
    decreases imports.len(),
{
    if imports.len() == 0 {
        seq![]
    } else {
        let i = imports.last();
        let rest = local_modules(imports.drop_last(), language);
        if language == "rust"@ && i.relative && !crate::extract::contains_seq(i.target@, "::"@) {
            rest.push(i.target@)
        } else {
            rest
        }
    }
}

/// The candidate hits of import `k`; none when not probed.
pub open spec fn hits_at(hits: Seq<CandidateHits>, k: int) -> CandidateHits {
    if 0 <= k < hits.len() {
        hits[k]
    } else {
        CandidateHits { at_root: false }
    }
}

fn first_segment_of(t: &str) -> (r: String)
    ensures
        r@ == first_segment(t@),
{
    let v = chars_of(t);
    let n = v.len();
    let mut k: usize = 0;
    assert(v@.skip(0) == v@);
    while k < n && k + 1 < n && !(v[k] == ':' && v[k + 1] == ':')
        invariant
            k <= n == v@.len(),
            n < usize::MAX || k < n,
            first_path_sep(v@) == k + first_path_sep(v@.skip(k as int)),
        decreases n - k,
    {
        assert(v@.skip(k as int).drop_first() == v@.skip(k + 1));
        assert(v@.skip(k as int)[0] == v@[k as int]);
        assert(v@.skip(k as int)[1] == v@[k + 1]);
        k += 1;
    }
    proof {
        if k < n && k + 1 < n {
            assert(v@.skip(k as int)[0] == v@[k as int]);
            assert(v@.skip(k as int)[1] == v@[k + 1]);
        }
    }
    let end = if k < n && k + 1 < n {
        k
    } else {
        n
    };
    assert(v@.take(end as int) == v@.subrange(0, end as int));
    let w = copy_range(v.as_slice(), 0, end);
    string_from(w.as_slice())
}

fn join_rel_of(base: &str, rel: &str) -> (r: String)
    ensures
        r@ == join_rel(base@, rel@),
{
    let rv = chars_of(rel);
    let bv = chars_of(base);
    if (rv.len() > 0 && rv[0] == '/') || bv.len() == 0 {
        return string_from(rv.as_slice());
    }
    let mut out = bv;
    out.push('/');
    push_all(&mut out, rv.as_slice());
    string_from(out.as_slice())
}

fn contains_module(mods: &Vec<String>, seg: &str) -> (r: bool)
    ensures
        r == mods@.map_values(|s: String| s@).contains(seg@),
{
    let ghost views = mods@.map_values(|s: String| s@);
    let mut k: usize = 0;
    while k < mods.len()
        invariant
            k <= mods@.len(),
            views == mods@.map_values(|s: String| s@),
            forall|m: int| 0 <= m < k ==> views[m] != seg@,
        decreases mods@.len() - k,
    {
        if str_eq(mods[k].as_str(), seg) {
            assert(views[k as int] == seg@);
            return true;
        }
        k += 1;
    }
    false
}

/// The kind of one import, as `dep_kind` states it.
pub fn classify(
    imp: &Import,
    language: &str,
    base: &str,
    ignore: &[String],
    mods: &Vec<String>,
    hits: CandidateHits,
) -> (r: DepKind)
    ensures
        r == dep_kind(
            imp.target@,
            imp.relative,
            language@,
            base@,
            ignore@.map_values(|s: String| s@),
            mods@.map_values(|s: String| s@),
            hits,
        ),
{
    let rust = str_eq(language, "rust");
    if imp.relative {
        if rust {
            return DepKind::Local;
        }
        let rel = relative_target(imp);
        let joined = join_rel_of(base, rel.as_str());
        let probe = normalize(joined.as_str());
        return if is_ignored(probe.as_str(), ignore) {
            DepKind::Ignored
        } else {
            DepKind::Local
        };
    }
    if is_ignored(imp.target.as_str(), ignore) {
        return DepKind::Ignored;
    }
    if rust {
        let first = first_segment_of(imp.target.as_str());
        if contains_module(mods, first.as_str()) {
            return DepKind::Local;
        }
    }
    let probed = str_eq(language, "python") || str_eq(language, "go") || str_eq(language, "java")
        || str_eq(language, "csharp");
    if probed {
        if hits.at_root {
            return DepKind::Local;
        }
    }
    DepKind::External
}

/// Resolve every import of a file to a kind. `base` is the file's directory
/// relative to the workspace root; `hits[k]` tells where the existence
/// candidates of import `k` were found (none when absent).
pub fn resolve(
    imports: &[Import],
    language: &str,
    base: &str,
    ignore: &[String],
    hits: &[CandidateHits],
) -> (r: Vec<ResolvedImport>)
    ensures
        r@.len() == imports@.len(),
        forall|k: int|
            0 <= k < r@.len() ==> {
                let i = #[trigger] imports@[k];
                &&& r@[k].target@ == i.target@
                &&& r@[k].line == i.line
                &&& r@[k].bytes == range_len(i.byte_range.start, i.byte_range.end)
                &&& r@[k].kind == dep_kind(
                    i.target@,
                    i.relative,
                    language@,
                    base@,
                    ignore@.map_values(|s: String| s@),
                    local_modules(imports@, language@),
                    hits_at(hits@, k),
                )
            },
{
    let rust = str_eq(language, "rust");
    let mut mods: Vec<String> = Vec::new();
    let mut k: usize = 0;
    while k < imports.len()
        invariant
            k <= imports@.len(),
            rust == (language@ == "rust"@),
            mods@.map_values(|s: String| s@) == local_modules(imports@.take(k as int), language@),
        decreases imports@.len() - k,
    {
        let imp = &imports[k];
        assert(imports@.take(k + 1).drop_last() == imports@.take(k as int));
        assert(imports@.take(k + 1).last() == imports@[k as int]);
        if rust && imp.relative && !crate::extract::contains_str(imp.target.as_str(), "::") {
            let ghost before = mods@.map_values(|s: String| s@);
            mods.push(imp.target.clone());
            assert(mods@.map_values(|s: String| s@) =~= before.push(imp.target@));
        }
        k += 1;
    }
    assert(imports@.take(imports@.len() as int) == imports@);
    let mut out: Vec<ResolvedImport> = Vec::new();
    let mut k: usize = 0;
    while k < imports.len()
        invariant
            k <= imports@.len(),
            mods@.map_values(|s: String| s@) == local_modules(imports@, language@),
            out@.len() == k,
            forall|j: int|
                0 <= j < k ==> {
                    let i = #[trigger] imports@[j];
                    &&& out@[j].target@ == i.target@
                    &&& out@[j].line == i.line
                    &&& out@[j].bytes == range_len(i.byte_range.start, i.byte_range.end)
                    &&& out@[j].kind == dep_kind(
                        i.target@,
                        i.relative,
                        language@,
                        base@,
                        ignore@.map_values(|s: String| s@),
                        local_modules(imports@, language@),
                        hits_at(hits@, j),
                    )
                },
        decreases imports@.len() - k,
    {
        let imp = &imports[k];
        let h = if k < hits.len() {
            hits[k]
        } else {
            CandidateHits { at_root: false }
        };
        let kind = classify(imp, language, base, ignore, &mods, h);
        let bytes = if imp.byte_range.start < imp.byte_range.end {
            imp.byte_range.end - imp.byte_range.start
        } else {
            0
        };
        out.push(ResolvedImport { target: imp.target.clone(), kind, line: imp.line, bytes });
        k += 1;
    }
    out
}

} // verus!
