//! Byte-level helpers: newline-delimited chunking of a byte stream, joining
//! lines, and the lossy UTF-8 decoding of raw command output.

use vstd::prelude::*;
use vstd::utf8::*;

verus! {

/// The line-feed byte.
pub open spec fn lf() -> u8 {
    10u8
}

/// Index of the first line feed in `s`, or `s.len()` when there is none.
pub open spec fn first_lf(s: Seq<u8>) -> int
    decreases s.len(),
{
    if s.len() == 0 {
        0
    } else if s[0] == lf() {
        0
    } else {
        1 + first_lf(s.drop_first())
    }
}

pub proof fn lemma_first_lf_nonneg(s: Seq<u8>)
    ensures
        0 <= first_lf(s) <= s.len(),
    decreases s.len(),
{
    if s.len() > 0 && s[0] != lf() {
        lemma_first_lf_nonneg(s.drop_first());
    }
}

/// The newline-terminated chunks of `s`, in order; each chunk ends with its
/// `\n` and holds no other one. Bytes after the last `\n` are not included.
pub open spec fn chunks(s: Seq<u8>) -> Seq<Seq<u8>>
    decreases s.len(),
{
    proof {
        lemma_first_lf_nonneg(s);
    }
    if first_lf(s) < s.len() {
        seq![s.take(first_lf(s) + 1)] + chunks(s.skip(first_lf(s) + 1))
    } else {
        seq![]
    }
}

/// The bytes after the last `\n` of `s` (all of `s` when it has none).
pub open spec fn pending(s: Seq<u8>) -> Seq<u8>
    decreases s.len(),
{
    proof {
        lemma_first_lf_nonneg(s);
    }
    if first_lf(s) < s.len() {
        pending(s.skip(first_lf(s) + 1))
    } else {
        s
    }
}

/// `s` holds no line feed.
pub open spec fn no_lf(s: Seq<u8>) -> bool {
    forall|i: int| 0 <= i < s.len() ==> s[i] != lf()
}

/// The line carried by a terminated chunk: its `\n` removed, then one
/// trailing `\r` removed when present.
pub open spec fn strip_terminator(chunk: Seq<u8>) -> Seq<u8> {
    let body = if chunk.len() > 0 && chunk.last() == lf() { chunk.drop_last() } else { chunk };
    if body.len() > 0 && body.last() == 13u8 { body.drop_last() } else { body }
}

/// Lines joined with `\n` separators (no trailing separator).
pub open spec fn join_lf(lines: Seq<Seq<u8>>) -> Seq<u8>
    decreases lines.len(),
{
    if lines.len() == 0 {
        seq![]
    } else if lines.len() == 1 {
        lines[0]
    } else {
        join_lf(lines.drop_last()).push(lf()) + lines.last()
    }
}

/// Concatenation of byte sequences.
pub open spec fn concat(parts: Seq<Seq<u8>>) -> Seq<u8>
    decreases parts.len(),
{
    if parts.len() == 0 {
        seq![]
    } else {
        concat(parts.drop_last()) + parts.last()
    }
}

pub proof fn lemma_first_lf_bounds(s: Seq<u8>)
    ensures
        0 <= first_lf(s) <= s.len(),
        first_lf(s) < s.len() ==> s[first_lf(s)] == lf(),
        forall|i: int| 0 <= i < first_lf(s) ==> s[i] != lf(),
    decreases s.len(),
{
    if s.len() > 0 && s[0] != lf() {
        lemma_first_lf_bounds(s.drop_first());
        assert forall|i: int| 0 <= i < first_lf(s) implies s[i] != lf() by {
            if i > 0 {
                assert(s[i] == s.drop_first()[i - 1]);
            }
        }
    }
}

/// When `s[..k]` has no `\n` and `s[k]` is one, the first `\n` is at `k`.
pub proof fn lemma_first_lf_at(s: Seq<u8>, k: int)
    requires
        0 <= k < s.len(),
        s[k] == lf(),
        forall|i: int| 0 <= i < k ==> s[i] != lf(),
    ensures
        first_lf(s) == k,
    decreases k,
{
    if k > 0 {
        lemma_first_lf_at(s.drop_first(), k - 1);
    }
}

/// A sequence without `\n` has no chunks and is all pending.
pub proof fn lemma_no_lf(s: Seq<u8>)
    requires
        no_lf(s),
    ensures
        first_lf(s) == s.len(),
        chunks(s) == Seq::<Seq<u8>>::empty(),
        pending(s) == s,
{
    lemma_first_lf_bounds(s);
}

/// Chunking distributes over appending: the chunks of `a + b` are the
/// chunks of `a` followed by the chunks of `pending(a) + b`.
pub proof fn lemma_chunks_append(a: Seq<u8>, b: Seq<u8>)
    ensures
        chunks(a + b) == chunks(a) + chunks(pending(a) + b),
        pending(a + b) == pending(pending(a) + b),
    decreases a.len(),
{
    lemma_first_lf_bounds(a);
    lemma_first_lf_bounds(a + b);
    let f = first_lf(a);
    if f < a.len() {
        assert forall|i: int| 0 <= i < f implies (a + b)[i] != lf() by {}
        lemma_first_lf_at(a + b, f);
        assert((a + b).take(f + 1) == a.take(f + 1));
        assert((a + b).skip(f + 1) == a.skip(f + 1) + b);
        lemma_chunks_append(a.skip(f + 1), b);
        assert(chunks(a) == seq![a.take(f + 1)] + chunks(a.skip(f + 1)));
        assert(chunks(a + b) == seq![a.take(f + 1)] + chunks(a.skip(f + 1) + b));
        assert(seq![a.take(f + 1)] + (chunks(a.skip(f + 1)) + chunks(pending(a.skip(f + 1)) + b))
            == (seq![a.take(f + 1)] + chunks(a.skip(f + 1))) + chunks(pending(a.skip(f + 1)) + b));
    } else {
        assert(pending(a) == a);
        assert(chunks(a) == Seq::<Seq<u8>>::empty());
        assert(chunks(a) + chunks(pending(a) + b) == chunks(a + b));
    }
}

/// Splitting at a line feed found after a `\n`-free run.
pub proof fn lemma_chunks_split(s: Seq<u8>, k: int)
    requires
        0 <= k < s.len(),
        s[k] == lf(),
        forall|i: int| 0 <= i < k ==> s[i] != lf(),
    ensures
        chunks(s) == seq![s.take(k + 1)] + chunks(s.skip(k + 1)),
        pending(s) == pending(s.skip(k + 1)),
{
    lemma_first_lf_at(s, k);
}

pub proof fn lemma_join_lf_push(lines: Seq<Seq<u8>>, x: Seq<u8>)
    ensures
        join_lf(lines.push(x)) == (if lines.len() == 0 { x } else { join_lf(lines).push(lf()) + x }),
{
    assert(lines.push(x).drop_last() == lines);
}

pub proof fn lemma_concat_push(parts: Seq<Seq<u8>>, x: Seq<u8>)
    ensures
        concat(parts.push(x)) == concat(parts) + x,
{
    assert(parts.push(x).drop_last() == parts);
}

/// The whole stream is its chunks followed by its pending bytes.
pub proof fn lemma_concat_chunks(s: Seq<u8>)
    ensures
        concat(chunks(s)) + pending(s) == s,
        no_lf(pending(s)),
    decreases s.len(),
{
    lemma_first_lf_bounds(s);
    let f = first_lf(s);
    if f < s.len() {
        lemma_concat_chunks(s.skip(f + 1));
        lemma_concat_prepend(s.take(f + 1), chunks(s.skip(f + 1)));
        assert(s.take(f + 1) + s.skip(f + 1) == s);
    }
}

pub proof fn lemma_concat_prepend(x: Seq<u8>, parts: Seq<Seq<u8>>)
    ensures
        concat(seq![x] + parts) == x + concat(parts),
    decreases parts.len(),
{
    if parts.len() == 0 {
        assert(seq![x] + parts == seq![x]);
        assert(seq![x].drop_last() == Seq::<Seq<u8>>::empty());
        assert(concat(seq![x]) == concat(Seq::<Seq<u8>>::empty()) + x);
        assert(x + concat(parts) == x);
    } else {
        lemma_concat_prepend(x, parts.drop_last());
        assert((seq![x] + parts).drop_last() == seq![x] + parts.drop_last());
        assert((seq![x] + parts).last() == parts.last());
        assert(x + concat(parts.drop_last()) + parts.last() == x + (concat(parts.drop_last()) + parts.last()));
    }
}

/// What `String::from_utf8_lossy` yields for a byte sequence.
pub uninterp spec fn utf8_lossy(bytes: Seq<u8>) -> Seq<char>;

/// `String::from_utf8_lossy`: decodes `bytes`, replacing each invalid
/// sequence with U+FFFD. The contract states the valid case exactly (the
/// plain UTF-8 decoding) and names the result in general.
#[verifier::external_body]
pub(crate) fn lossy_string(bytes: &[u8]) -> (s: String)
    ensures
        s@ == utf8_lossy(bytes@),
        valid_utf8(bytes@) ==> s@ == decode_utf8(bytes@),
{
    String::from_utf8_lossy(bytes).into_owned()
}

/// Append the bytes of `src` to `dst`.
pub fn push_bytes(dst: &mut Vec<u8>, src: &[u8])
    ensures
        final(dst)@ == old(dst)@ + src@,
{
    dst.extend_from_slice(src);
    proof {
        assert(dst@ =~= old(dst)@ + src@);
    }
}

/// Copy `v[lo..hi]` into a new vector.
pub fn copy_bytes(v: &[u8], lo: usize, hi: usize) -> (r: Vec<u8>)
    requires
        lo <= hi <= v@.len(),
    ensures
        r@ == v@.subrange(lo as int, hi as int),
{
    vstd::slice::slice_to_vec(vstd::slice::slice_subrange(v, lo, hi))
}

/// The line of a terminated chunk (see [`strip_terminator`]).
pub fn terminated_line(chunk: &[u8]) -> (r: Vec<u8>)
    ensures
        r@ == strip_terminator(chunk@),
{
    let mut end = chunk.len();
    if end > 0 && chunk[end - 1] == 10u8 {
        end -= 1;
    }
    if end > 0 && chunk[end - 1] == 13u8 {
        end -= 1;
    }
    let r = copy_bytes(chunk, 0, end);
    proof {
        let c = chunk@;
        let body = if c.len() > 0 && c.last() == lf() { c.drop_last() } else { c };
        assert(body == c.subrange(0, body.len() as int));
        if body.len() > 0 && body.last() == 13u8 {
            assert(body.drop_last() == c.subrange(0, body.len() - 1));
        }
    }
    r
}

} // verus!
