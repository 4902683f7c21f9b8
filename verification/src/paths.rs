//! File names and extensions of `/`-separated paths, as `std::path::Path`
//! reads them.

use vstd::prelude::*;
use crate::seqs::{split_on, index_of, lemma_index_of};
use crate::signature::find_char;
use crate::text::{chars_of, string_from, copy_range};

verus! {

/// The last component of `pieces` that is neither empty nor `.`; `acc`
/// when there is none.
pub open spec fn last_component(pieces: Seq<Seq<char>>, acc: Option<Seq<char>>) -> Option<
    Seq<char>,
>
    decreases pieces.len(),
{
    if pieces.len() == 0 {
        acc
    } else {
        let p = pieces[0];
        last_component(
            pieces.drop_first(),
            if p.len() == 0 || p == seq!['.'] {
                acc
            } else {
                Some(p)
            },
        )
    }
}

/// `Path::file_name`: the final component, unless it is `..`.
pub open spec fn file_name(path: Seq<char>) -> Option<Seq<char>> {
    match last_component(split_on(path, '/'), None) {
        Some(c) => if c == seq!['.', '.'] {
            None
        } else {
            Some(c)
        },
        None => None,
    }
}

/// Index of the last `c` in `s`, or -1.
pub open spec fn last_index(s: Seq<char>, c: char) -> int
    decreases s.len(),
{
    if s.len() == 0 {
        -1
    } else if s.last() == c {
        s.len() - 1
    } else {
        last_index(s.drop_last(), c)
    }
}

/// `Path::extension`: what follows the last `.` of the file name, unless
/// the name has no `.` or its only `.` leads it.
pub open spec fn extension(path: Seq<char>) -> Option<Seq<char>> {
    match file_name(path) {
        Some(n) => if last_index(n, '.') <= 0 {
            None
        } else {
            Some(n.skip(last_index(n, '.') + 1))
        },
        None => None,
    }
}

pub proof fn lemma_last_index_at(s: Seq<char>, c: char, k: int)
    requires
        -1 <= k < s.len(),
        k >= 0 ==> s[k] == c,
        forall|m: int| k < m < s.len() ==> s[m] != c,
    ensures
        last_index(s, c) == k,
    decreases s.len(),
{
    if s.len() > 0 && s.last() != c {
        lemma_last_index_at(s.drop_last(), c, k);
    }
}

/// Bounds of the file name of `v` (as `file_name` reads `v`), if any.
fn file_name_bounds(v: &[char]) -> (r: Option<(usize, usize)>)
    ensures
        match r {
            Some((lo, hi)) => lo <= hi <= v@.len() && file_name(v@) == Some(
                v@.subrange(lo as int, hi as int),
            ),
            None => file_name(v@).is_none(),
        },
{
    let len = v.len();
    let mut start: usize = 0;
    let mut last: Option<(usize, usize)> = None;
    proof {
        assert(v@.skip(0) == v@);
    }
    loop
        invariant
            start <= len == v@.len(),
            match last {
                Some((lo, hi)) => lo <= hi <= len,
                None => true,
            },
            last_component(split_on(v@, '/'), None) == last_component(
                split_on(v@.skip(start as int), '/'),
                match last {
                    Some((lo, hi)) => Some(v@.subrange(lo as int, hi as int)),
                    None => None,
                },
            ),
        ensures
            match last {
                Some((lo, hi)) => lo <= hi <= len,
                None => true,
            },
            last_component(split_on(v@, '/'), None) == match last {
                Some((lo, hi)) => Some(v@.subrange(lo as int, hi as int)),
                None => None,
            },
        decreases len - start,
    {
        let ghost t = v@.skip(start as int);
        let ghost acc = match last {
            Some((lo, hi)) => Some(v@.subrange(lo as int, hi as int)),
            None => None::<Seq<char>>,
        };
        assert(t == v@.subrange(start as int, len as int));
        let end = find_char(v, start, len, '/');
        proof {
            lemma_index_of(t, '/');
            assert(t.take(end - start) == v@.subrange(start as int, end as int));
        }
        let piece_len = end - start;
        let dot = piece_len == 1 && v[start] == '.';
        proof {
            if piece_len == 1 {
                assert(v@.subrange(start as int, end as int)[0] == v@[start as int]);
                assert(dot ==> v@.subrange(start as int, end as int) == seq!['.']);
            }
        }
        let ghost piece = v@.subrange(start as int, end as int);
        let ghost next_acc = if piece.len() == 0 || piece == seq!['.'] {
            acc
        } else {
            Some(piece)
        };
        if !(piece_len == 0 || dot) {
            last = Some((start, end));
        }
        proof {
            assert(match last {
                Some((lo, hi)) => Some(v@.subrange(lo as int, hi as int)),
                None => None::<Seq<char>>,
            } == next_acc);
        }
        if end == len {
            proof {
                assert(split_on(t, '/') == seq![t]);
                assert(t.take(end - start) == t);
                assert(seq![t].drop_first() =~= Seq::<Seq<char>>::empty());
                assert(seq![t][0] == t);
                assert(last_component(seq![t], acc) == last_component(seq![t].drop_first(), next_acc));
            }
            break;
        }
        proof {
            assert(t.skip(end - start + 1) == v@.skip(end + 1));
            assert(split_on(t, '/')[0] == t.take(end - start));
            assert(split_on(t, '/').drop_first() == split_on(v@.skip(end + 1), '/'));
        }
        start = end + 1;
    }
    match last {
        Some((lo, hi)) => {
            if hi - lo == 2 && v[lo] == '.' && v[lo + 1] == '.' {
                assert(v@.subrange(lo as int, hi as int) == seq!['.', '.']);
                None
            } else {
                proof {
                    let sub = v@.subrange(lo as int, hi as int);
                    if sub == seq!['.', '.'] {
                        assert(sub.len() == 2);
                        assert(sub[0] == v@[lo as int]);
                        assert(sub[1] == v@[lo + 1]);
                        assert(false);
                    }
                }
                Some((lo, hi))
            }
        },
        None => None,
    }
}

/// `Path::extension`, for a `/`-separated path.
pub fn extension_of(path: &str) -> (r: Option<String>)
    ensures
        match r {
            Some(s) => extension(path@) == Some(s@),
            None => extension(path@).is_none(),
        },
{
    let v = chars_of(path);
    match file_name_bounds(v.as_slice()) {
        None => None,
        Some((lo, hi)) => {
            let ghost n = v@.subrange(lo as int, hi as int);
            let mut k = hi;
            while k > lo && v[k - 1] != '.'
                invariant
                    lo <= k <= hi <= v@.len(),
                    n == v@.subrange(lo as int, hi as int),
                    forall|m: int| k - lo <= m < n.len() ==> n[m] != '.',
                decreases k - lo,
            {
                assert(n[k - 1 - lo] == v@[k - 1]);
                k -= 1;
            }
            proof {
                if k > lo {
                    assert(n[k - 1 - lo] == v@[k - 1]);
                }
                lemma_last_index_at(n, '.', k - lo - 1);
            }
            if k - lo <= 1 {
                None
            } else {
                assert(n.skip(k - lo) == v@.subrange(k as int, hi as int));
                let e = copy_range(v.as_slice(), k, hi);
                Some(string_from(e.as_slice()))
            }
        },
    }
}

} // verus!
