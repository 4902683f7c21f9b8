//! Self-healing hints for a failed symbol lookup: look-alike names ranked
//! by how closely they match the query, and a short outline of the file's
//! top-level symbols.

use vstd::prelude::*;
use crate::symbol::Symbol;
use crate::seqs::starts_with;
use crate::extract::{contains_seq, contains_str};
use crate::tools::{lev, bounded_levenshtein};
use crate::exec::strings_view;
use crate::text::{chars_of, string_from, push_str, push_all, decimal, decimal_chars};
use crate::cli::{kind_name, kind_name_spec, ExitError};
use crate::tools::comma_join;
use crate::lang::util::opt_view;

verus! {

/// At most this many suggestions are offered.
pub const SUGGESTION_LIMIT: usize = 5;

/// Largest edit distance that still counts as a typo.
pub const TYPO_DISTANCE_MAX: usize = 2;

/// What `str::to_lowercase` makes of a string.
pub uninterp spec fn lowercase_of(s: Seq<char>) -> Seq<char>;

/// `str::to_lowercase`. Unicode's lowercase mapping, context-dependent
/// final sigma included, is not written out: the result is the name
/// `lowercase_of` applied to the argument.
#[verifier::external_body]
fn lowercase(s: &str) -> (r: String)
    ensures
        r@ == lowercase_of(s@),
{
    s.to_lowercase()
}

/// The tier in which a lowercase name matches a lowercase query: prefix,
/// then substring, then a typo within the distance ceiling.
pub open spec fn tier_of(name: Seq<char>, query: Seq<char>) -> Option<u8> {
    if starts_with(name, query) {
        Some(0u8)
    } else if contains_seq(name, query) {
        Some(1u8)
    } else if lev(name, query) <= TYPO_DISTANCE_MAX {
        Some(2u8)
    } else {
        None
    }
}

/// Code-point lexicographic order: the order of `String`, whose UTF-8
/// bytes compare as their code points do.
pub open spec fn name_less(a: Seq<char>, b: Seq<char>) -> bool
    decreases a.len(),
{
    if a.len() == 0 {
        b.len() > 0
    } else if b.len() == 0 {
        false
    } else if a[0] != b[0] {
        (a[0] as u32) < (b[0] as u32)
    } else {
        name_less(a.drop_first(), b.drop_first())
    }
}

/// Ranking order of scored names: tier first, then name.
pub open spec fn ranks_before(x: (u8, Seq<char>), y: (u8, Seq<char>)) -> bool {
    x.0 < y.0 || (x.0 == y.0 && name_less(x.1, y.1))
}

/// Some entry of `s` carries `name`.
pub open spec fn has_name(s: Seq<(u8, Seq<char>)>, name: Seq<char>) -> bool {
    exists|i: int| 0 <= i < s.len() && (#[trigger] s[i]).1 == name
}

/// The scored candidates among the first `n` names, in first-seen order:
/// each name that matches in some tier, once, with the tier it matched in
/// when first seen.
pub open spec fn scored_upto(
    names: Seq<Seq<char>>,
    lowered: Seq<Seq<char>>,
    query: Seq<char>,
    n: nat,
) -> Seq<(u8, Seq<char>)>
    decreases n,
{
    if n == 0 {
        seq![]
    } else {
        let prev = scored_upto(names, lowered, query, (n - 1) as nat);
        match tier_of(lowered[n - 1], query) {
            Some(t) => if has_name(prev, names[n - 1]) {
                prev
            } else {
                prev.push((t, names[n - 1]))
            },
            None => prev,
        }
    }
}

/// `e` placed in front of the first entry it ranks before.
pub open spec fn insert_ranked(sorted: Seq<(u8, Seq<char>)>, e: (u8, Seq<char>)) -> Seq<(u8, Seq<char>)>
    decreases sorted.len(),
{
    if sorted.len() == 0 {
        seq![e]
    } else if ranks_before(e, sorted[0]) {
        seq![e] + sorted
    } else {
        seq![sorted[0]] + insert_ranked(sorted.drop_first(), e)
    }
}

/// Scored entries in ranking order.
pub open spec fn rank_sort(s: Seq<(u8, Seq<char>)>) -> Seq<(u8, Seq<char>)>
    decreases s.len(),
{
    if s.len() == 0 {
        s
    } else {
        insert_ranked(rank_sort(s.drop_last()), s.last())
    }
}

/// The first `SUGGESTION_LIMIT` names in ranking order.
pub open spec fn suggestions_of(names: Seq<Seq<char>>, lowered: Seq<Seq<char>>, query: Seq<char>) -> Seq<Seq<char>> {
    let sorted = rank_sort(scored_upto(names, lowered, query, names.len()));
    let shown = if sorted.len() <= SUGGESTION_LIMIT {
        sorted
    } else {
        sorted.take(SUGGESTION_LIMIT as int)
    };
    shown.map_values(|e: (u8, Seq<char>)| e.1)
}

/// Where an entry lands in a ranked sequence.
proof fn lemma_insert_ranked_at(s: Seq<(u8, Seq<char>)>, e: (u8, Seq<char>), p: int)
    requires
        0 <= p <= s.len(),
        forall|i: int| 0 <= i < p ==> !ranks_before(e, #[trigger] s[i]),
        p < s.len() ==> ranks_before(e, s[p]),
    ensures
        insert_ranked(s, e) == s.take(p) + seq![e] + s.skip(p),
    decreases s.len(),
{
    if s.len() == 0 {
        assert(s.take(p) + seq![e] + s.skip(p) =~= seq![e]);
    } else if p == 0 {
        assert(s.take(p) + seq![e] + s.skip(p) =~= seq![e] + s);
    } else {
        let t = s.drop_first();
        assert forall|i: int| 0 <= i < p - 1 implies !ranks_before(e, #[trigger] t[i]) by {
            assert(t[i] == s[i + 1]);
        }
        lemma_insert_ranked_at(t, e, p - 1);
        assert(!ranks_before(e, s[0]));
        assert(s.take(p) + seq![e] + s.skip(p) =~= seq![s[0]] + (t.take(p - 1) + seq![e] + t.skip(p - 1)));
    }
}

/// No later entry of `s` ranks before an earlier one.
pub open spec fn ranked(s: Seq<(u8, Seq<char>)>) -> bool {
    forall|i: int, j: int| 0 <= i < j < s.len() ==> !ranks_before(#[trigger] s[j], #[trigger] s[i])
}

proof fn lemma_name_less_transitive(a: Seq<char>, b: Seq<char>, c: Seq<char>)
    requires
        name_less(a, b),
        name_less(b, c),
    ensures
        name_less(a, c),
    decreases a.len(),
{
    if a.len() > 0 && b.len() > 0 && c.len() > 0 && a[0] == b[0] && b[0] == c[0] {
        lemma_name_less_transitive(a.drop_first(), b.drop_first(), c.drop_first());
    }
}

proof fn lemma_ranks_before_transitive(x: (u8, Seq<char>), y: (u8, Seq<char>), z: (u8, Seq<char>))
    requires
        ranks_before(x, y),
        ranks_before(y, z),
    ensures
        ranks_before(x, z),
{
    if x.0 == y.0 && y.0 == z.0 {
        lemma_name_less_transitive(x.1, y.1, z.1);
    }
}

/// Inserting keeps the order and adds exactly the new entry.
proof fn lemma_insert_ranked_sorted(s: Seq<(u8, Seq<char>)>, e: (u8, Seq<char>))
    requires
        ranked(s),
    ensures
        ranked(insert_ranked(s, e)),
        insert_ranked(s, e).len() == s.len() + 1,
        forall|k: int| 0 <= k < insert_ranked(s, e).len() ==> #[trigger] insert_ranked(s, e)[k] == e
            || s.contains(insert_ranked(s, e)[k]),
    decreases s.len(),
{
    let r = insert_ranked(s, e);
    if s.len() == 0 {
    } else if ranks_before(e, s[0]) {
        assert(r == seq![e] + s);
        assert forall|i: int, j: int| 0 <= i < j < r.len() implies !ranks_before(#[trigger] r[j], #[trigger] r[i]) by {
            if i == 0 {
                assert(r[j] == s[j - 1]);
                if ranks_before(s[j - 1], e) {
                    lemma_ranks_before_transitive(s[j - 1], e, s[0]);
                    if j - 1 > 0 {
                        assert(!ranks_before(s[j - 1], s[0]));
                    } else {
                        lemma_name_less_irreflexive(s[0].1);
                    }
                }
            } else {
                assert(r[i] == s[i - 1]);
                assert(r[j] == s[j - 1]);
            }
        }
        assert forall|k: int| 0 <= k < r.len() implies #[trigger] r[k] == e || s.contains(r[k]) by {
            if k > 0 {
                assert(r[k] == s[k - 1]);
            }
        }
    } else {
        let t = s.drop_first();
        assert forall|i: int, j: int| 0 <= i < j < t.len() implies !ranks_before(#[trigger] t[j], #[trigger] t[i]) by {
            assert(t[i] == s[i + 1]);
            assert(t[j] == s[j + 1]);
        }
        lemma_insert_ranked_sorted(t, e);
        let it = insert_ranked(t, e);
        assert(r == seq![s[0]] + it);
        assert forall|k: int| 0 <= k < it.len() implies !ranks_before(#[trigger] it[k], s[0]) by {
            if it[k] != e {
                assert(t.contains(it[k]));
                let m = choose|m: int| 0 <= m < t.len() && t[m] == it[k];
                assert(t[m] == s[m + 1]);
            }
        }
        assert forall|i: int, j: int| 0 <= i < j < r.len() implies !ranks_before(#[trigger] r[j], #[trigger] r[i]) by {
            assert(r[j] == it[j - 1]);
            if i > 0 {
                assert(r[i] == it[i - 1]);
            }
        }
        assert forall|k: int| 0 <= k < r.len() implies #[trigger] r[k] == e || s.contains(r[k]) by {
            if k == 0 {
                assert(s[0] == r[0]);
            } else {
                assert(r[k] == it[k - 1]);
                if it[k - 1] != e {
                    let m = choose|m: int| 0 <= m < t.len() && t[m] == it[k - 1];
                    assert(s[m + 1] == t[m]);
                }
            }
        }
    }
}

proof fn lemma_name_less_irreflexive(a: Seq<char>)
    ensures
        !name_less(a, a),
    decreases a.len(),
{
    if a.len() > 0 {
        lemma_name_less_irreflexive(a.drop_first());
    }
}

/// Ranking sorts: the result is in ranking order, has the same length, and
/// holds only entries of the input.
proof fn lemma_rank_sort(s: Seq<(u8, Seq<char>)>)
    ensures
        ranked(rank_sort(s)),
        rank_sort(s).len() == s.len(),
        forall|k: int| 0 <= k < rank_sort(s).len() ==> s.contains(#[trigger] rank_sort(s)[k]),
    decreases s.len(),
{
    if s.len() > 0 {
        lemma_rank_sort(s.drop_last());
        let prev = rank_sort(s.drop_last());
        lemma_insert_ranked_sorted(prev, s.last());
        let r = rank_sort(s);
        assert forall|k: int| 0 <= k < r.len() implies s.contains(#[trigger] r[k]) by {
            if r[k] == s.last() {
                assert(s[s.len() - 1] == r[k]);
            } else {
                assert(prev.contains(r[k]));
                let m = choose|m: int| 0 <= m < prev.len() && prev[m] == r[k];
                assert(s.drop_last().contains(prev[m]));
                let q = choose|q: int| 0 <= q < s.drop_last().len() && s.drop_last()[q] == prev[m];
                assert(s[q] == s.drop_last()[q]);
            }
        }
    }
}

/// Every scored entry names a symbol whose lowercase name matches the
/// query in the entry's tier.
proof fn lemma_scored_entries(names: Seq<Seq<char>>, lowered: Seq<Seq<char>>, query: Seq<char>, n: nat)
    requires
        n <= names.len(),
        n <= lowered.len(),
    ensures
        forall|k: int| 0 <= k < scored_upto(names, lowered, query, n).len() ==> exists|m: int|
            0 <= m < n && names[m] == (#[trigger] scored_upto(names, lowered, query, n)[k]).1 && tier_of(
                lowered[m],
                query,
            ) == Some(scored_upto(names, lowered, query, n)[k].0),
    decreases n,
{
    if n > 0 {
        lemma_scored_entries(names, lowered, query, (n - 1) as nat);
        let prev = scored_upto(names, lowered, query, (n - 1) as nat);
        let cur = scored_upto(names, lowered, query, n);
        assert forall|k: int| 0 <= k < cur.len() implies exists|m: int|
            0 <= m < n && names[m] == (#[trigger] cur[k]).1 && tier_of(lowered[m], query) == Some(cur[k].0) by {
            if k < prev.len() {
                assert(cur[k] == prev[k]);
                let m = choose|m: int|
                    0 <= m < n - 1 && names[m] == (#[trigger] prev[k]).1 && tier_of(lowered[m], query) == Some(
                        prev[k].0,
                    );
                assert(0 <= m < n);
            } else {
                assert(names[n - 1] == cur[k].1);
            }
        }
    }
}

/// Suggestions are at most `SUGGESTION_LIMIT` names, taken in ranking
/// order (tier first, then name) from the names whose lowercase form
/// matches the lowercase query by prefix, substring, or a typo within
/// `TYPO_DISTANCE_MAX` edits.
pub proof fn law_suggestions_are_ranked_and_capped(names: Seq<Seq<char>>, lowered: Seq<Seq<char>>, query: Seq<char>)
    requires
        names.len() == lowered.len(),
    ensures
        ({
            let sorted = rank_sort(scored_upto(names, lowered, query, names.len()));
            let out = suggestions_of(names, lowered, query);
            &&& out.len() <= SUGGESTION_LIMIT
            &&& ranked(sorted)
            &&& forall|i: int| 0 <= i < out.len() ==> #[trigger] out[i] == sorted[i].1
            &&& forall|i: int| 0 <= i < sorted.len() ==> exists|m: int|
                0 <= m < names.len() && names[m] == (#[trigger] sorted[i]).1 && tier_of(lowered[m], query) == Some(
                    sorted[i].0,
                )
        }),
{
    let scored = scored_upto(names, lowered, query, names.len());
    lemma_rank_sort(scored);
    lemma_scored_entries(names, lowered, query, names.len());
    let sorted = rank_sort(scored);
    assert forall|i: int| 0 <= i < sorted.len() implies exists|m: int|
        0 <= m < names.len() && names[m] == (#[trigger] sorted[i]).1 && tier_of(lowered[m], query) == Some(
            sorted[i].0,
        ) by {
        assert(scored.contains(sorted[i]));
        let k = choose|k: int| 0 <= k < scored.len() && scored[k] == sorted[i];
        let m = choose|m: int|
            0 <= m < names.len() && names[m] == (#[trigger] scored[k]).1 && tier_of(lowered[m], query) == Some(
                scored[k].0,
            );
        assert(0 <= m < names.len());
    }
}

/// `s` starts with `p`.
fn has_prefix(s: &str, p: &str) -> (r: bool)
    ensures
        r == starts_with(s@, p@),
{
    let v = chars_of(s);
    let q = chars_of(p);
    if q.len() > v.len() {
        return false;
    }
    let mut j: usize = 0;
    while j < q.len()
        invariant
            v@ == s@,
            q@ == p@,
            q@.len() <= v@.len(),
            j <= q@.len(),
            forall|m: int| 0 <= m < j ==> v@[m] == q@[m],
        decreases q@.len() - j,
    {
        if v[j] != q[j] {
            assert(v@.take(q@.len() as int)[j as int] != q@[j as int]);
            return false;
        }
        j += 1;
    }
    assert(v@.take(q@.len() as int) =~= q@);
    true
}

/// The tier in which `name` matches `query`, both lowercase.
pub fn tier(name: &str, query: &str) -> (r: Option<u8>)
    ensures
        r == tier_of(name@, query@),
{
    if has_prefix(name, query) {
        Some(0)
    } else if contains_str(name, query) {
        Some(1)
    } else if bounded_levenshtein(name, query, TYPO_DISTANCE_MAX).is_some() {
        Some(2)
    } else {
        None
    }
}

/// Character sequences compared for equality.
pub(crate) fn chars_eq(a: &[char], b: &[char]) -> (r: bool)
    ensures
        r == (a@ == b@),
{
    if a.len() != b.len() {
        return false;
    }
    let mut i: usize = 0;
    while i < a.len()
        invariant
            a@.len() == b@.len(),
            i <= a@.len(),
            forall|m: int| 0 <= m < i ==> a@[m] == b@[m],
        decreases a@.len() - i,
    {
        if a[i] != b[i] {
            return false;
        }
        i += 1;
    }
    assert(a@ =~= b@);
    true
}

/// `a` sorts before `b` as strings do.
fn chars_less(a: &[char], b: &[char]) -> (r: bool)
    ensures
        r == name_less(a@, b@),
{
    let mut i: usize = 0;
    assert(a@.skip(0) =~= a@);
    assert(b@.skip(0) =~= b@);
    while i < a.len() && i < b.len()
        invariant
            i <= a@.len(),
            i <= b@.len(),
            name_less(a@, b@) == name_less(a@.skip(i as int), b@.skip(i as int)),
        decreases a@.len() - i,
    {
        let x = a[i];
        let y = b[i];
        assert(a@.skip(i as int)[0] == x);
        assert(b@.skip(i as int)[0] == y);
        if x != y {
            return (x as u32) < (y as u32);
        }
        assert(a@.skip(i as int).drop_first() =~= a@.skip(i + 1));
        assert(b@.skip(i as int).drop_first() =~= b@.skip(i + 1));
        i += 1;
    }
    i == a.len() && i < b.len()
}

/// Scored entries as (tier, name) pairs.
pub open spec fn entries_view(tiers: Seq<u8>, keys: Seq<Vec<char>>) -> Seq<(u8, Seq<char>)> {
    Seq::new(tiers.len(), |i: int| (tiers[i], keys[i]@))
}

/// Entries of `e` in the order `ord` lists them.
pub open spec fn ordered_view(e: Seq<(u8, Seq<char>)>, ord: Seq<usize>) -> Seq<(u8, Seq<char>)> {
    Seq::new(ord.len(), |i: int| e[ord[i] as int])
}

/// Each key is the name at its origin.
pub open spec fn origins_name(names: Seq<String>, keys: Seq<Vec<char>>, origin: Seq<usize>) -> bool {
    &&& keys.len() == origin.len()
    &&& forall|i: int| 0 <= i < origin.len() ==> #[trigger] origin[i] < names.len()
    &&& forall|i: int| 0 <= i < origin.len() ==> names[origin[i] as int]@ == (#[trigger] keys[i])@
}

/// Some key equals `name`.
fn knows_key(keys: &Vec<Vec<char>>, name: &[char]) -> (r: bool)
    ensures
        r == exists|m: int| 0 <= m < keys@.len() && (#[trigger] keys@[m])@ == name@,
{
    let mut i: usize = 0;
    while i < keys.len()
        invariant
            i <= keys@.len(),
            forall|m: int| 0 <= m < i ==> (#[trigger] keys@[m])@ != name@,
        decreases keys@.len() - i,
    {
        if chars_eq(keys[i].as_slice(), name) {
            return true;
        }
        i += 1;
    }
    false
}

/// Look-alike names for a failed lookup, given each name's lowercase form
/// and the lowercase query: each name scores in its best tier (prefix,
/// substring, typo), names are kept once, ranked by tier then name, and
/// the first `SUGGESTION_LIMIT` are returned.
pub fn rank_lowered(names: &Vec<String>, lowered: &Vec<String>, query: &str) -> (r: Vec<String>)
    requires
        names@.len() == lowered@.len(),
    ensures
        strings_view(r@) == suggestions_of(strings_view(names@), strings_view(lowered@), query@),
{
    let ghost nv = strings_view(names@);
    let ghost lv = strings_view(lowered@);
    let mut tiers: Vec<u8> = Vec::new();
    let mut keys: Vec<Vec<char>> = Vec::new();
    let mut origin: Vec<usize> = Vec::new();
    let mut k: usize = 0;
    while k < names.len()
        invariant
            names@.len() == lowered@.len(),
            k <= names@.len(),
            nv == strings_view(names@),
            lv == strings_view(lowered@),
            tiers@.len() == keys@.len(),
            keys@.len() == origin@.len(),
            entries_view(tiers@, keys@) == scored_upto(nv, lv, query@, k as nat),
            origins_name(names@, keys@, origin@),
        decreases names@.len() - k,
    {
        let ghost prev = entries_view(tiers@, keys@);
        let t = tier(lowered[k].as_str(), query);
        assert(lv[k as int] == lowered@[k as int]@);
        assert(nv[k as int] == names@[k as int]@);
        match t {
            Some(tv) => {
                let name_chars = chars_of(names[k].as_str());
                let seen = knows_key(&keys, name_chars.as_slice());
                proof {
                    if seen {
                        let m = choose|m: int| 0 <= m < keys@.len() && (#[trigger] keys@[m])@ == name_chars@;
                        assert(prev[m].1 == nv[k as int]);
                    } else {
                        assert forall|i: int| 0 <= i < prev.len() implies (#[trigger] prev[i]).1 != nv[k as int] by {
                            assert(prev[i].1 == keys@[i]@);
                        }
                    }
                }
                if !seen {
                    tiers.push(tv);
                    keys.push(name_chars);
                    origin.push(k);
                    assert(entries_view(tiers@, keys@) =~= prev.push((tv, nv[k as int])));
                    assert(name_chars@ == names@[k as int]@);
                    assert(keys@[keys@.len() - 1]@ == names@[k as int]@);
                    assert(origin@[origin@.len() - 1] == k);
                    assert(k < names@.len());
                }
            },
            None => {},
        }
        k += 1;
    }
    let ghost ev = entries_view(tiers@, keys@);
    assert(ev.take(ev.len() as int) =~= ev);
    // Insertion in ranking order, over indices into the scored entries.
    let mut ord: Vec<usize> = Vec::new();
    let mut j: usize = 0;
    while j < tiers.len()
        invariant
            tiers@.len() == keys@.len(),
            keys@.len() == origin@.len(),
            ev == entries_view(tiers@, keys@),
            j <= tiers@.len(),
            origins_name(names@, keys@, origin@),
            forall|i: int| 0 <= i < ord@.len() ==> #[trigger] ord@[i] < tiers@.len(),
            ordered_view(ev, ord@) == rank_sort(ev.take(j as int)),
        decreases tiers@.len() - j,
    {
        let ghost cur = ordered_view(ev, ord@);
        let ghost e = ev[j as int];
        let mut p: usize = 0;
        while p < ord.len()
            invariant
                tiers@.len() == keys@.len(),
                ev == entries_view(tiers@, keys@),
                j < tiers@.len(),
                e == ev[j as int],
                cur == ordered_view(ev, ord@),
                forall|i: int| 0 <= i < ord@.len() ==> #[trigger] ord@[i] < tiers@.len(),
                p <= ord@.len(),
                forall|i: int| 0 <= i < p ==> !ranks_before(e, #[trigger] cur[i]),
            ensures
                p <= ord@.len(),
                forall|i: int| 0 <= i < p ==> !ranks_before(e, #[trigger] cur[i]),
                p < ord@.len() ==> ranks_before(e, cur[p as int]),
            decreases ord@.len() - p,
        {
            let q = ord[p];
            let before = tiers[j] < tiers[q] || (tiers[j] == tiers[q] && chars_less(
                keys[j].as_slice(),
                keys[q].as_slice(),
            ));
            assert(cur[p as int] == ev[q as int]);
            if before {
                break;
            }
            p += 1;
        }
        proof {
            lemma_insert_ranked_at(cur, e, p as int);
            assert(ev.take(j + 1).drop_last() =~= ev.take(j as int));
        }
        ord.insert(p, j);
        assert(ordered_view(ev, ord@) =~= cur.take(p as int) + seq![e] + cur.skip(p as int));
        j += 1;
    }
    let shown = if ord.len() <= SUGGESTION_LIMIT {
        ord.len()
    } else {
        SUGGESTION_LIMIT
    };
    let ghost sorted = ordered_view(ev, ord@);
    let mut r: Vec<String> = Vec::new();
    let mut i: usize = 0;
    while i < shown
        invariant
            shown <= ord@.len(),
            i <= shown,
            sorted == ordered_view(ev, ord@),
            ev == entries_view(tiers@, keys@),
            tiers@.len() == keys@.len(),
            keys@.len() == origin@.len(),
            forall|m: int| 0 <= m < ord@.len() ==> #[trigger] ord@[m] < tiers@.len(),
            origins_name(names@, keys@, origin@),
            r@.len() == i,
            forall|m: int| 0 <= m < i ==> (#[trigger] r@[m])@ == sorted[m].1,
        decreases shown - i,
    {
        let q = ord[i];
        let o = origin[q];
        r.push(names[o].clone());
        i += 1;
    }
    proof {
        let want = suggestions_of(nv, lv, query@);
        assert(strings_view(r@) =~= want);
    }
    r
}

/// The lowercase forms of the symbols' names.
pub open spec fn lowered_names(symbols: Seq<Symbol>) -> Seq<Seq<char>> {
    symbols.map_values(|s: Symbol| lowercase_of(s.name@))
}

/// The symbols' names.
pub open spec fn symbol_names(symbols: Seq<Symbol>) -> Seq<Seq<char>> {
    symbols.map_values(|s: Symbol| s.name@)
}

/// Look-alike symbol names for a failed exact-match lookup of `query`:
/// case-insensitive prefix matches, then substring matches, then names
/// within two edits; ties broken by name, duplicates removed, at most
/// `SUGGESTION_LIMIT` of them.
pub fn ranked_suggestions(symbols: &[Symbol], query: &str) -> (r: Vec<String>)
    ensures
        strings_view(r@) == suggestions_of(
            symbol_names(symbols@),
            lowered_names(symbols@),
            lowercase_of(query@),
        ),
{
    let q = lowercase(query);
    let mut names: Vec<String> = Vec::new();
    let mut lowered: Vec<String> = Vec::new();
    let mut k: usize = 0;
    while k < symbols.len()
        invariant
            k <= symbols@.len(),
            names@.len() == k,
            lowered@.len() == k,
            forall|i: int| 0 <= i < k ==> (#[trigger] names@[i])@ == symbols@[i].name@,
            forall|i: int| 0 <= i < k ==> (#[trigger] lowered@[i])@ == lowercase_of(symbols@[i].name@),
        decreases symbols@.len() - k,
    {
        names.push(symbols[k].name.clone());
        lowered.push(lowercase(symbols[k].name.as_str()));
        k += 1;
    }
    assert(strings_view(names@) =~= symbol_names(symbols@));
    assert(strings_view(lowered@) =~= lowered_names(symbols@));
    rank_lowered(&names, &lowered, q.as_str())
}

/// At most this many outline lines are shown.
pub const MINI_OUTLINE_LIMIT: usize = 20;

/// `e` placed after every symbol that starts no later than it does.
pub open spec fn insert_by_start(sorted: Seq<Symbol>, e: Symbol) -> Seq<Symbol>
    decreases sorted.len(),
{
    if sorted.len() == 0 {
        seq![e]
    } else if e.byte_range.start < sorted[0].byte_range.start {
        seq![e] + sorted
    } else {
        seq![sorted[0]] + insert_by_start(sorted.drop_first(), e)
    }
}

/// Symbols in order of their start offset, ties kept in their given order.
pub open spec fn by_start(s: Seq<Symbol>) -> Seq<Symbol>
    decreases s.len(),
{
    if s.len() == 0 {
        s
    } else {
        insert_by_start(by_start(s.drop_last()), s.last())
    }
}

/// The symbols of a position-ordered sequence that do not start inside
/// the span of one kept before them; `span_end` ends the last kept span.
pub open spec fn top_level_from(s: Seq<Symbol>, span_end: usize) -> Seq<Symbol>
    decreases s.len(),
{
    if s.len() == 0 {
        seq![]
    } else if s[0].byte_range.start >= span_end {
        seq![s[0]] + top_level_from(s.drop_first(), s[0].byte_range.end)
    } else {
        top_level_from(s.drop_first(), span_end)
    }
}

/// One outline line: the kind's name, a space, the symbol's name.
pub open spec fn outline_line(s: Symbol) -> Seq<char> {
    kind_name_spec(s.kind) + " "@ + s.name@
}

/// Lines joined by line feeds.
pub open spec fn line_join(ls: Seq<Seq<char>>) -> Seq<char>
    decreases ls.len(),
{
    if ls.len() == 0 {
        seq![]
    } else if ls.len() == 1 {
        ls[0]
    } else {
        line_join(ls.drop_last()) + "\n"@ + ls.last()
    }
}

/// The lines shown for the top-level symbols: the first
/// `MINI_OUTLINE_LIMIT`, then a count of the rest.
pub open spec fn outline_lines(top: Seq<Symbol>) -> Seq<Seq<char>> {
    if top.len() <= MINI_OUTLINE_LIMIT {
        top.map_values(|s: Symbol| outline_line(s))
    } else {
        top.take(MINI_OUTLINE_LIMIT as int).map_values(|s: Symbol| outline_line(s)).push(
            "... and "@ + decimal((top.len() - MINI_OUTLINE_LIMIT) as nat) + " more"@,
        )
    }
}

/// The outline of the top-level symbols, none when there are none.
pub open spec fn mini_outline_of(symbols: Seq<Symbol>) -> Option<Seq<char>> {
    let top = top_level_from(by_start(symbols), 0);
    if top.len() == 0 {
        None
    } else {
        Some(line_join(outline_lines(top)))
    }
}

/// Where a symbol lands in a start-ordered sequence.
proof fn lemma_insert_by_start_at(s: Seq<Symbol>, e: Symbol, p: int)
    requires
        0 <= p <= s.len(),
        forall|i: int| 0 <= i < p ==> !(e.byte_range.start < (#[trigger] s[i]).byte_range.start),
        p < s.len() ==> e.byte_range.start < s[p].byte_range.start,
    ensures
        insert_by_start(s, e) == s.take(p) + seq![e] + s.skip(p),
    decreases s.len(),
{
    if s.len() == 0 {
        assert(s.take(p) + seq![e] + s.skip(p) =~= seq![e]);
    } else if p == 0 {
        assert(s.take(p) + seq![e] + s.skip(p) =~= seq![e] + s);
    } else {
        let t = s.drop_first();
        assert forall|i: int| 0 <= i < p - 1 implies !(e.byte_range.start < (#[trigger] t[i]).byte_range.start) by {
            assert(t[i] == s[i + 1]);
        }
        lemma_insert_by_start_at(t, e, p - 1);
        assert(s.take(p) + seq![e] + s.skip(p) =~= seq![s[0]] + (t.take(p - 1) + seq![e] + t.skip(p - 1)));
    }
}

/// Symbols picked by index.
pub open spec fn symbols_at(symbols: Seq<Symbol>, ord: Seq<usize>) -> Seq<Symbol> {
    Seq::new(ord.len(), |i: int| symbols[ord[i] as int])
}

/// A capped outline of the file's top-level symbols (`kind name` lines in
/// order of position), so a missed lookup can recover without another
/// round-trip. Symbols starting inside an already kept span are nested
/// and skipped; `None` when there is nothing to show; truncation is
/// announced with `... and N more`.
pub fn mini_outline(symbols: &[Symbol]) -> (r: Option<String>)
    ensures
        opt_view(r) == mini_outline_of(symbols@),
{
    let mut ord: Vec<usize> = Vec::new();
    let mut j: usize = 0;
    while j < symbols.len()
        invariant
            j <= symbols@.len(),
            forall|i: int| 0 <= i < ord@.len() ==> #[trigger] ord@[i] < symbols@.len(),
            symbols_at(symbols@, ord@) == by_start(symbols@.take(j as int)),
        decreases symbols@.len() - j,
    {
        let ghost cur = symbols_at(symbols@, ord@);
        let ghost e = symbols@[j as int];
        let start = symbols[j].byte_range.start;
        let mut p: usize = 0;
        while p < ord.len()
            invariant
                j < symbols@.len(),
                e == symbols@[j as int],
                start == e.byte_range.start,
                cur == symbols_at(symbols@, ord@),
                forall|i: int| 0 <= i < ord@.len() ==> #[trigger] ord@[i] < symbols@.len(),
                p <= ord@.len(),
                forall|i: int| 0 <= i < p ==> !(start < (#[trigger] cur[i]).byte_range.start),
            ensures
                p <= ord@.len(),
                forall|i: int| 0 <= i < p ==> !(start < (#[trigger] cur[i]).byte_range.start),
                p < ord@.len() ==> start < cur[p as int].byte_range.start,
            decreases ord@.len() - p,
        {
            let q = ord[p];
            assert(cur[p as int] == symbols@[q as int]);
            if start < symbols[q].byte_range.start {
                break;
            }
            p += 1;
        }
        proof {
            lemma_insert_by_start_at(cur, e, p as int);
            assert(symbols@.take(j + 1).drop_last() =~= symbols@.take(j as int));
        }
        ord.insert(p, j);
        assert(symbols_at(symbols@, ord@) =~= cur.take(p as int) + seq![e] + cur.skip(p as int));
        j += 1;
    }
    assert(symbols@.take(symbols@.len() as int) =~= symbols@);
    let ghost ordered = symbols_at(symbols@, ord@);
    let mut top: Vec<usize> = Vec::new();
    let mut span_end: usize = 0;
    let mut i: usize = 0;
    assert(ordered.skip(0) =~= ordered);
    assert(symbols_at(symbols@, top@) =~= Seq::<Symbol>::empty());
    while i < ord.len()
        invariant
            ordered == symbols_at(symbols@, ord@),
            i <= ord@.len(),
            forall|m: int| 0 <= m < ord@.len() ==> #[trigger] ord@[m] < symbols@.len(),
            forall|m: int| 0 <= m < top@.len() ==> #[trigger] top@[m] < symbols@.len(),
            symbols_at(symbols@, top@) + top_level_from(ordered.skip(i as int), span_end)
                == top_level_from(ordered, 0),
        decreases ord@.len() - i,
    {
        let q = ord[i];
        let ghost rest = ordered.skip(i as int);
        assert(rest[0] == symbols@[q as int]);
        assert(rest.drop_first() =~= ordered.skip(i + 1));
        let ghost before = symbols_at(symbols@, top@);
        if symbols[q].byte_range.start >= span_end {
            top.push(q);
            span_end = symbols[q].byte_range.end;
            assert(symbols_at(symbols@, top@) =~= before.push(symbols@[q as int]));
            assert(before.push(symbols@[q as int]) + top_level_from(ordered.skip(i + 1), span_end)
                =~= before + (seq![symbols@[q as int]] + top_level_from(ordered.skip(i + 1), span_end)));
        }
        i += 1;
    }
    let ghost tv = symbols_at(symbols@, top@);
    assert(ordered.skip(ord@.len() as int) =~= Seq::<Symbol>::empty());
    assert(tv + Seq::<Symbol>::empty() =~= tv);
    if top.len() == 0 {
        return None;
    }
    let ghost lines = outline_lines(tv);
    let shown = if top.len() <= MINI_OUTLINE_LIMIT {
        top.len()
    } else {
        MINI_OUTLINE_LIMIT
    };
    let mut v: Vec<char> = Vec::new();
    let mut k: usize = 0;
    while k < shown
        invariant
            tv == symbols_at(symbols@, top@),
            lines == outline_lines(tv),
            shown <= top@.len(),
            shown == (if top@.len() <= MINI_OUTLINE_LIMIT { top@.len() } else { MINI_OUTLINE_LIMIT as nat }),
            forall|m: int| 0 <= m < top@.len() ==> #[trigger] top@[m] < symbols@.len(),
            k <= shown,
            v@ == line_join(lines.take(k as int)),
        decreases shown - k,
    {
        let s = &symbols[top[k]];
        assert(lines[k as int] == outline_line(tv[k as int]));
        assert(lines.take(k + 1).drop_last() =~= lines.take(k as int));
        if k > 0 {
            push_str(&mut v, "\n");
        }
        push_str(&mut v, kind_name(s.kind));
        push_str(&mut v, " ");
        push_str(&mut v, s.name.as_str());
        proof {
            if k == 0 {
                assert(v@ =~= lines.take(1)[0]);
            } else {
                assert(v@ =~= line_join(lines.take(k as int)) + "\n"@ + lines[k as int]);
            }
        }
        k += 1;
    }
    if top.len() > MINI_OUTLINE_LIMIT {
        push_str(&mut v, "\n... and ");
        let more = decimal_chars(top.len() - MINI_OUTLINE_LIMIT);
        push_all(&mut v, more.as_slice());
        push_str(&mut v, " more");
        proof {
            let base = tv.take(MINI_OUTLINE_LIMIT as int).map_values(|s: Symbol| outline_line(s));
            assert(lines.drop_last() =~= base);
            assert(lines.take(shown as int) =~= base);
            reveal_strlit("\n... and ");
            reveal_strlit("... and ");
            reveal_strlit("\n");
            assert(v@ =~= line_join(base) + "\n"@ + lines.last());
            assert(line_join(lines) == line_join(base) + "\n"@ + lines.last());
        }
    } else {
        assert(lines.take(shown as int) =~= lines);
    }
    Some(string_from(v.as_slice()))
}

/// The symbols, when there are any to consult.
pub open spec fn symbols_view(symbols: Option<Vec<Symbol>>) -> Option<Seq<Symbol>> {
    match symbols {
        Some(v) => Some(v@),
        None => None,
    }
}

/// A `symbol not found:` message with self-healing hints: a line of
/// ranked suggestions when there are any, then a blank line and the mini
/// outline when there is one. Other messages, and lookups whose file could
/// not be analyzed, keep their message.
pub open spec fn healed_message(message: Seq<char>, query: Seq<char>, symbols: Option<Seq<Symbol>>) -> Seq<char> {
    if !starts_with(message, "symbol not found: "@) || symbols is None {
        message
    } else {
        let syms = symbols->0;
        let sugg = suggestions_of(symbol_names(syms), lowered_names(syms), lowercase_of(query));
        let with_sugg = if sugg.len() == 0 {
            message
        } else {
            message + "\nsuggestions: "@ + comma_join(sugg)
        };
        match mini_outline_of(syms) {
            Some(o) => with_sugg + "\n\n"@ + o,
            None => with_sugg,
        }
    }
}

/// `parts` joined by `", "`.
fn join_comma(parts: &Vec<String>) -> (r: Vec<char>)
    ensures
        r@ == comma_join(strings_view(parts@)),
{
    let ghost pv = strings_view(parts@);
    let mut v: Vec<char> = Vec::new();
    let mut k: usize = 0;
    while k < parts.len()
        invariant
            k <= parts@.len(),
            pv == strings_view(parts@),
            v@ == comma_join(pv.take(k as int)),
        decreases parts@.len() - k,
    {
        let ghost before = v@;
        if k > 0 {
            push_str(&mut v, ", ");
        }
        push_str(&mut v, parts[k].as_str());
        proof {
            let ms = pv.take(k + 1);
            assert(ms.drop_last() =~= pv.take(k as int));
            assert(ms.last() == parts@[k as int]@);
            if k == 0 {
                assert(v@ =~= ms[0]);
            } else {
                assert(v@ =~= before + ", "@ + ms.last());
            }
        }
        k += 1;
    }
    assert(pv.take(parts@.len() as int) =~= pv);
    v
}

/// Enrich a `symbol not found:` error for self-healing, given the symbols
/// of the file that was searched (`None` when it could not be analyzed):
/// the first line stays as it was, a ranked suggestions line and a mini
/// outline follow. All other errors pass through untouched.
pub fn with_self_healing_symbols(query: &str, symbols: Option<Vec<Symbol>>, err: ExitError) -> (r: ExitError)
    ensures
        r.code == err.code,
        r.message@ == healed_message(err.message@, query@, symbols_view(symbols)),
{
    if !has_prefix(err.message.as_str(), "symbol not found: ") {
        return err;
    }
    let syms = match symbols {
        Some(syms) => syms,
        None => return err,
    };
    let suggestions = ranked_suggestions(syms.as_slice(), query);
    let mut v = chars_of(err.message.as_str());
    if suggestions.len() > 0 {
        push_str(&mut v, "\nsuggestions: ");
        let joined = join_comma(&suggestions);
        push_all(&mut v, joined.as_slice());
    }
    let ghost with_sugg = v@;
    match mini_outline(syms.as_slice()) {
        Some(o) => {
            push_str(&mut v, "\n\n");
            push_str(&mut v, o.as_str());
        },
        None => {},
    }
    ExitError::new(err.code, string_from(v.as_slice()))
}

} // verus!
