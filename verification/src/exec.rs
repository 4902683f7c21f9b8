//! Token-efficient compression of command output.
//!
//! Lines matching keep patterns (case-insensitive regexes) survive verbatim,
//! the first/last few lines form a head/tail summary, and every run of
//! other lines between kept ones folds into one `... [N lines omitted]`
//! marker. Outputs with few lines pass through byte for byte. The result is
//! a pure function of the input bytes and the options.

use vstd::prelude::*;
use vstd::utf8::*;
use vstd::string::StringSliceAdditionalSpecFns;
use crate::bytes::{
    chunks, concat, copy_bytes, join_lf, lemma_chunks_append, lemma_chunks_split, lemma_concat_chunks,
    lemma_concat_push, lemma_join_lf_push, lemma_no_lf, lf, lossy_string, no_lf, pending, push_bytes,
    strip_terminator, terminated_line, utf8_lossy,
};
use crate::text::{chars_of, decimal, decimal_chars, push_all, push_str, string_from};

verus! {

/// Default number of leading lines kept verbatim as the head summary.
pub const DEFAULT_HEAD_LINES: usize = 5;

/// Default number of trailing lines kept verbatim as the tail summary.
pub const DEFAULT_TAIL_LINES: usize = 5;

/// A folded result that saved at most this many percent is flagged by
/// [`CompressStats::compression_ineffective`].
pub const INEFFECTIVE_SAVED_PERCENT_MAX: u32 = 10;

/// Outputs at or below this many lines are passed through uncompressed.
pub const DEFAULT_COLLAPSE_THRESHOLD: usize = 20;

/// Default keep patterns: lines matching any of them are always kept.
pub fn default_keep_patterns() -> (v: Vec<String>)
    ensures
        v@.len() == 5,
        v@[0]@ == "error"@,
        v@[1]@ == "warning"@,
        v@[2]@ == "failed"@,
        v@[3]@ == "panic"@,
        v@[4]@ == "fatal"@,
{
    let mut v = Vec::new();
    v.push(String::from_str("error"));
    v.push(String::from_str("warning"));
    v.push(String::from_str("failed"));
    v.push(String::from_str("panic"));
    v.push(String::from_str("fatal"));
    v
}

/// The implicit keep pattern appended to every configured list: diagnostic
/// location lines such as `   --> src/foo.rs:12:34`.
pub open spec fn implicit_keep_pattern() -> Seq<char> {
    "^\\s+-->"@
}

/// What searching `text` with `pattern`, compiled case-insensitively by the
/// `regex` crate, yields: whether it matches, or the compile error message.
pub uninterp spec fn regex_search_ci(pattern: Seq<char>, text: Seq<char>) -> Result<bool, Seq<char>>;

/// `regex::RegexBuilder::new(pattern).case_insensitive(true).build()`, then
/// `Regex::is_match(text)`: the contract only names the outcome.
#[verifier::external_body]
fn regex_is_match_ci(pattern: &str, text: &str) -> (r: Result<bool, String>)
    ensures
        match r {
            Ok(b) => regex_search_ci(pattern@, text@) == Ok::<bool, Seq<char>>(b),
            Err(m) => regex_search_ci(pattern@, text@) == Err::<bool, Seq<char>>(m@),
        },
{
    match regex::RegexBuilder::new(pattern).case_insensitive(true).build() {
        Ok(re) => Ok(re.is_match(text)),
        Err(e) => Err(e.to_string()),
    }
}

#[verifier::external_type_specification]
#[verifier::external_body]
pub struct ExRegexSet(regex::RegexSet);

/// The patterns a compiled `regex::RegexSet` holds, in order.
pub uninterp spec fn regex_set_patterns(set: regex::RegexSet) -> Seq<Seq<char>>;

/// `regex::RegexSetBuilder::new(patterns).case_insensitive(true).build()`:
/// on success the set holds the patterns, in order, each compiled on its
/// own (as `RegexSet::patterns` returns them); `None` when the set does
/// not build.
#[verifier::external_body]
fn build_regex_set_ci(patterns: &Vec<String>) -> (r: Option<regex::RegexSet>)
    ensures
        r matches Some(set) ==> regex_set_patterns(set) == pattern_views(patterns@),
{
    regex::RegexSetBuilder::new(patterns.iter()).case_insensitive(true).build().ok()
}

/// `regex::RegexSet::is_match`: true exactly when one of the set's
/// patterns matches `text`.
#[verifier::external_body]
fn regex_set_is_match(set: &regex::RegexSet, text: &str) -> (b: bool)
    ensures
        b == line_matches(regex_set_patterns(*set), text@),
{
    set.is_match(text)
}

/// The number of cl100k_base tokens `tiktoken-rs` encodes `text` into
/// (special tokens allowed), or `None` when its encoder reports an error.
pub uninterp spec fn cl100k_encode_len(text: Seq<char>) -> Option<usize>;

/// `tiktoken_rs::cl100k_base_singleton()` and `CoreBPE::encode` with the
/// encoder's special tokens allowed: the length of the encoding is named.
#[verifier::external_body]
fn cl100k_len(text: &str) -> (r: Option<usize>)
    ensures
        r == cl100k_encode_len(text@),
{
    let bpe = tiktoken_rs::cl100k_base_singleton();
    bpe.encode(text, &bpe.special_tokens()).ok().map(|(tokens, _)| tokens.len())
}

/// Token cost of a text: its cl100k_base token count (0 if it cannot be
/// encoded).
pub open spec fn token_count(text: Seq<char>) -> usize {
    match cl100k_encode_len(text) {
        Some(n) => n,
        None => 0,
    }
}

/// Real token count via the cl100k_base BPE tokenizer.
pub fn estimate_tokens(text: &str) -> (n: usize)
    ensures
        n == token_count(text@),
{
    match cl100k_len(text) {
        Some(n) => n,
        None => 0,
    }
}

/// Percentage saved going from `original` to `compressed` tokens.
pub open spec fn saved_percent(original: nat, compressed: nat) -> nat {
    if original == 0 {
        0
    } else {
        let m = if compressed < original { compressed } else { original };
        (((original - m) * 100) as int / original as int) as nat
    }
}

fn saved_pct(original: usize, compressed: usize) -> (r: u32)
    ensures
        r as nat == saved_percent(original as nat, compressed as nat),
        r <= 100,
{
    if original == 0 {
        return 0;
    }
    let m = if compressed < original { compressed } else { original };
    let diff = (original - m) as u128;
    let orig = original as u128;
    proof {
        let d = diff as int;
        let o = orig as int;
        assert(d * 100 <= o * 100) by (nonlinear_arith)
            requires d <= o;
        assert((d * 100) / o <= 100) by (nonlinear_arith)
            requires d <= o, o > 0;
    }
    let r = (diff * 100) / orig;
    r as u32
}

/// Errors produced by the compression engine.
#[derive(Debug)]
pub enum ExecError {
    InvalidPattern { pattern: String, message: String },
}

impl ExecError {
    /// Human-readable message naming the rejected pattern.
    pub fn to_message(&self) -> (s: String)
        ensures
            match self {
                ExecError::InvalidPattern { pattern, message } =>
                    s@ == "invalid regex pattern `"@ + pattern@ + "`: "@ + message@,
            },
    {
        match self {
            ExecError::InvalidPattern { pattern, message } => {
                let mut v: Vec<char> = Vec::new();
                push_str(&mut v, "invalid regex pattern `");
                push_str(&mut v, pattern.as_str());
                push_str(&mut v, "`: ");
                push_str(&mut v, message.as_str());
                string_from(v.as_slice())
            },
        }
    }
}

/// Tuning knobs for [`compress`].
pub struct CompressOptions {
    /// Complete keep-pattern list; matching lines are kept verbatim.
    pub keep_patterns: Vec<String>,
    /// Leading lines kept verbatim as the head summary.
    pub head_lines: usize,
    /// Trailing lines kept verbatim as the tail summary.
    pub tail_lines: usize,
    /// Outputs with at most this many lines pass through uncompressed.
    pub collapse_threshold: usize,
}

impl Default for CompressOptions {
    fn default() -> (o: Self)
        ensures
            o.keep_patterns@.len() == 5,
            o.keep_patterns@[0]@ == "error"@,
            o.keep_patterns@[1]@ == "warning"@,
            o.keep_patterns@[2]@ == "failed"@,
            o.keep_patterns@[3]@ == "panic"@,
            o.keep_patterns@[4]@ == "fatal"@,
            o.head_lines == DEFAULT_HEAD_LINES,
            o.tail_lines == DEFAULT_TAIL_LINES,
            o.collapse_threshold == DEFAULT_COLLAPSE_THRESHOLD,
    {
        CompressOptions {
            keep_patterns: default_keep_patterns(),
            head_lines: DEFAULT_HEAD_LINES,
            tail_lines: DEFAULT_TAIL_LINES,
            collapse_threshold: DEFAULT_COLLAPSE_THRESHOLD,
        }
    }
}

/// Deterministic statistics about a compression pass.
#[derive(Clone, Copy, PartialEq, Eq, Debug, Structural)]
pub struct CompressStats {
    pub total_lines: usize,
    pub kept_lines: usize,
    pub omitted_lines: usize,
    pub original_tokens: usize,
    pub compressed_tokens: usize,
    pub saved_percent: u32,
    /// True when the fold path ran (output exceeded the collapse threshold).
    pub collapsed: bool,
    /// Lines kept outside the head and tail windows because a keep pattern
    /// matched them.
    pub pattern_kept_lines: usize,
}

impl CompressStats {
    /// True when compression ran but saved at most
    /// [`INEFFECTIVE_SAVED_PERCENT_MAX`] percent while keep patterns kept
    /// lines outside the head and tail windows. Passthrough results, and
    /// folds that kept nothing but the windows, are never flagged.
    pub fn compression_ineffective(&self) -> (b: bool)
        ensures
            b == (self.collapsed && self.saved_percent <= INEFFECTIVE_SAVED_PERCENT_MAX
                && self.pattern_kept_lines > 0),
    {
        self.collapsed && self.saved_percent <= INEFFECTIVE_SAVED_PERCENT_MAX && self.pattern_kept_lines > 0
    }
}

/// The result of a compression pass: the rendered bytes and statistics.
#[derive(Debug, Clone)]
pub struct CompressResult {
    pub text: Vec<u8>,
    pub stats: CompressStats,
}

// ---------------------------------------------------------------------------
// Specification of the compressed view.

/// The patterns a line is tested against: the configured ones, then the
/// implicit location pattern.
pub open spec fn effective_patterns(keep: Seq<String>) -> Seq<Seq<char>> {
    keep.map_values(|p: String| p@).push(implicit_keep_pattern())
}

/// True if some pattern matches `text`.
pub open spec fn line_matches(pats: Seq<Seq<char>>, text: Seq<char>) -> bool
    decreases pats.len(),
{
    pats.len() > 0 && (regex_search_ci(pats[0], text) == Ok::<bool, Seq<char>>(true)
        || line_matches(pats.drop_first(), text))
}

/// Longest line, in bytes without its terminator, that is kept whole; the
/// first `LINE_BYTES_MAX` bytes of a longer line are kept and the rest is
/// dropped, announced by a marker line. This bounds the memory the
/// streaming compressor needs for a line that never ends.
pub const LINE_BYTES_MAX: usize = 1048576;

/// The marker line that stands for the dropped rest of an over-long line.
pub open spec fn truncation_marker_text() -> Seq<char> {
    "... [line truncated at 1048576 bytes]"@
}

/// The `(chunk, line)` pairs an over-long line body turns into: its first
/// `LINE_BYTES_MAX` bytes as a terminated line, then the marker line.
pub open spec fn truncated_items(body: Seq<u8>) -> Seq<(Seq<u8>, Seq<u8>)> {
    let cut = body.take(LINE_BYTES_MAX as int).push(lf());
    let m = encode_utf8(truncation_marker_text());
    seq![(cut, strip_terminator(cut)), (m.push(lf()), m)]
}

/// The `(chunk, line)` pairs of one terminated chunk.
pub open spec fn chunk_expand(c: Seq<u8>) -> Seq<(Seq<u8>, Seq<u8>)> {
    if c.len() > LINE_BYTES_MAX + 1 {
        truncated_items(c.drop_last())
    } else {
        seq![(c, strip_terminator(c))]
    }
}

/// The `(chunk, line)` pairs of a run of terminated chunks.
pub open spec fn chunk_items(cs: Seq<Seq<u8>>) -> Seq<(Seq<u8>, Seq<u8>)>
    decreases cs.len(),
{
    if cs.len() == 0 {
        seq![]
    } else {
        chunk_items(cs.drop_last()) + chunk_expand(cs.last())
    }
}

/// The `(chunk, line)` pairs of the unterminated bytes at the end of a
/// stream: none, the bytes themselves, or their truncation.
pub open spec fn pending_items(p: Seq<u8>) -> Seq<(Seq<u8>, Seq<u8>)> {
    if p.len() == 0 {
        seq![]
    } else if p.len() > LINE_BYTES_MAX {
        truncated_items(p)
    } else {
        seq![(p, p)]
    }
}

/// The lines of a byte stream as `(chunk, line)` pairs: each terminated
/// chunk with its line (terminator and a preceding `\r` removed), then the
/// final unterminated bytes, if any, which are their own line. An over-long
/// line gives its first `LINE_BYTES_MAX` bytes and the marker line.
pub open spec fn stream_items(s: Seq<u8>) -> Seq<(Seq<u8>, Seq<u8>)> {
    chunk_items(chunks(s)) + pending_items(pending(s))
}

/// The raw bytes the items of a stream stand for.
pub open spec fn raw_bytes(items: Seq<(Seq<u8>, Seq<u8>)>) -> Seq<u8> {
    concat(items.map_values(|it: (Seq<u8>, Seq<u8>)| it.0))
}

/// No line of `s` is longer than `LINE_BYTES_MAX` bytes.
pub open spec fn lines_within_budget(s: Seq<u8>) -> bool {
    &&& forall|i: int| 0 <= i < chunks(s).len() ==> #[trigger] chunks(s)[i].len() <= LINE_BYTES_MAX + 1
    &&& pending(s).len() <= LINE_BYTES_MAX
}

/// The items a stream has yielded once its bytes so far are seen: all its
/// terminated chunks, and the truncation of an over-long unterminated rest.
pub open spec fn consumed_items(s: Seq<u8>) -> Seq<(Seq<u8>, Seq<u8>)> {
    chunk_items(chunks(s)) + if pending(s).len() > LINE_BYTES_MAX {
        truncated_items(pending(s))
    } else {
        Seq::<(Seq<u8>, Seq<u8>)>::empty()
    }
}

/// Token count of the raw chunks, accumulated with saturation.
pub open spec fn raw_token_sum(items: Seq<(Seq<u8>, Seq<u8>)>) -> usize
    decreases items.len(),
{
    if items.len() == 0 {
        0
    } else {
        let prev = raw_token_sum(items.drop_last());
        let t = token_count(utf8_lossy(items.last().0));
        if prev + t > usize::MAX { usize::MAX } else { (prev + t) as usize }
    }
}

/// The text of each line (lossy UTF-8).
pub open spec fn line_texts(items: Seq<(Seq<u8>, Seq<u8>)>) -> Seq<Seq<char>> {
    items.map_values(|it: (Seq<u8>, Seq<u8>)| utf8_lossy(it.1))
}

/// Kept middle lines, each with the number of omitted lines just before it.
pub open spec fn kept_middle(pats: Seq<Seq<char>>, m: Seq<Seq<char>>) -> Seq<(nat, Seq<char>)>
    decreases m.len(),
{
    if m.len() == 0 {
        seq![]
    } else if line_matches(pats, m.last()) {
        kept_middle(pats, m.drop_last()).push((omitted_run(pats, m.drop_last()), m.last()))
    } else {
        kept_middle(pats, m.drop_last())
    }
}

/// Number of omitted middle lines after the last kept one.
pub open spec fn omitted_run(pats: Seq<Seq<char>>, m: Seq<Seq<char>>) -> nat
    decreases m.len(),
{
    if m.len() == 0 {
        0
    } else if line_matches(pats, m.last()) {
        0
    } else {
        omitted_run(pats, m.drop_last()) + 1
    }
}

/// `... [N lines omitted]` (`line` when N is 1).
pub open spec fn omit_marker_text(n: nat) -> Seq<char> {
    "... ["@ + decimal(n) + if n == 1 { " line omitted]"@ } else { " lines omitted]"@ }
}

/// The rendered middle: each kept line, preceded by a marker for the run
/// of omitted lines before it (when non-empty).
pub open spec fn render_middle(k: Seq<(nat, Seq<char>)>) -> Seq<Seq<char>>
    decreases k.len(),
{
    if k.len() == 0 {
        seq![]
    } else {
        let prev = render_middle(k.drop_last());
        let with_marker = if k.last().0 > 0 { prev.push(omit_marker_text(k.last().0)) } else { prev };
        with_marker.push(k.last().1)
    }
}

/// Number of head lines of `n` lines.
pub open spec fn head_count(n: nat, head: nat) -> nat {
    if n < head { n } else { head }
}

/// Number of tail lines of `n` lines.
pub open spec fn tail_count(n: nat, head: nat, tail: nat) -> nat {
    let rest = (n - head_count(n, head)) as nat;
    if rest < tail { rest } else { tail }
}

/// The output lines of the fold path for line texts `t`.
pub open spec fn folded_lines(pats: Seq<Seq<char>>, t: Seq<Seq<char>>, head: nat, tail: nat) -> Seq<Seq<char>> {
    let h = head_count(t.len(), head);
    let tl = tail_count(t.len(), head, tail);
    let m = t.subrange(h as int, t.len() - tl);
    let run = omitted_run(pats, m);
    t.subrange(0, h as int) + render_middle(kept_middle(pats, m)) + (if run > 0 {
        seq![omit_marker_text(run)]
    } else {
        Seq::<Seq<char>>::empty()
    }) + t.subrange(t.len() - tl, t.len() as int)
}

/// Number of lines the fold path keeps verbatim.
pub open spec fn folded_kept(pats: Seq<Seq<char>>, t: Seq<Seq<char>>, head: nat, tail: nat) -> nat {
    let h = head_count(t.len(), head);
    let tl = tail_count(t.len(), head, tail);
    h + kept_middle(pats, t.subrange(h as int, t.len() - tl)).len() + tl
}

/// Number of middle lines the fold path keeps for a pattern match.
pub open spec fn pattern_kept(pats: Seq<Seq<char>>, t: Seq<Seq<char>>, head: nat, tail: nat) -> nat {
    let h = head_count(t.len(), head);
    let tl = tail_count(t.len(), head, tail);
    kept_middle(pats, t.subrange(h as int, t.len() - tl)).len()
}

/// The rendered bytes of the fold path.
pub open spec fn folded_text(pats: Seq<Seq<char>>, t: Seq<Seq<char>>, head: nat, tail: nat) -> Seq<u8> {
    join_lf(folded_lines(pats, t, head, tail).map_values(|l: Seq<char>| encode_utf8(l)))
}

/// The compressed bytes of stream `s`.
pub open spec fn compressed_text(s: Seq<u8>, pats: Seq<Seq<char>>, head: nat, tail: nat, threshold: nat) -> Seq<u8> {
    let items = stream_items(s);
    if items.len() <= threshold {
        raw_bytes(items)
    } else {
        folded_text(pats, line_texts(items), head, tail)
    }
}

/// The statistics of compressing stream `s`.
pub open spec fn compressed_stats(s: Seq<u8>, pats: Seq<Seq<char>>, head: nat, tail: nat, threshold: nat) -> CompressStats {
    let items = stream_items(s);
    let n = items.len();
    if n <= threshold {
        let t = token_count(utf8_lossy(raw_bytes(items)));
        CompressStats {
            total_lines: n as usize,
            kept_lines: n as usize,
            omitted_lines: 0,
            original_tokens: t,
            compressed_tokens: t,
            saved_percent: 0,
            collapsed: false,
            pattern_kept_lines: 0,
        }
    } else {
        let texts = line_texts(items);
        let kept = folded_kept(pats, texts, head, tail);
        let raw = raw_token_sum(items);
        let ct = token_count(utf8_lossy(folded_text(pats, texts, head, tail)));
        CompressStats {
            total_lines: n as usize,
            kept_lines: kept as usize,
            omitted_lines: (n - kept) as usize,
            original_tokens: raw,
            compressed_tokens: ct,
            saved_percent: saved_percent(raw as nat, ct as nat) as u32,
            collapsed: true,
            pattern_kept_lines: pattern_kept(pats, texts, head, tail) as usize,
        }
    }
}


// ---------------------------------------------------------------------------
// Keep-pattern matching.

/// Patterns of a string vector, as character sequences.
pub open spec fn pattern_views(v: Seq<String>) -> Seq<Seq<char>> {
    v.map_values(|p: String| p@)
}

/// True if some pattern of `pats` matches `text`.
fn any_pattern_matches(pats: &Vec<String>, text: &str) -> (b: bool)
    ensures
        b == line_matches(pattern_views(pats@), text@),
{
    let ghost all = pattern_views(pats@);
    let mut i: usize = 0;
    proof {
        assert(all.skip(0) == all);
    }
    while i < pats.len()
        invariant
            i <= pats@.len(),
            all == pattern_views(pats@),
            line_matches(all, text@) == line_matches(all.skip(i as int), text@),
        decreases pats@.len() - i,
    {
        proof {
            let rest = all.skip(i as int);
            assert(rest.len() > 0);
            assert(rest[0] == pats@[i as int]@);
            assert(rest.drop_first() == all.skip(i + 1));
        }
        if let Ok(true) = regex_is_match_ci(pats[i].as_str(), text) {
            return true;
        }
        i += 1;
    }
    proof {
        assert(all.skip(pats@.len() as int).len() == 0);
    }
    false
}

// ---------------------------------------------------------------------------
// Streaming compressor.

/// Streaming compressor: feed raw output bytes incrementally (chunks may
/// split lines anywhere) and render, on finish, the same view as
/// [`compress`] gives for the concatenated bytes. Memory stays bounded by
/// the collapse threshold, the head/tail windows and the kept lines.
pub struct StreamCompressor {
    /// Configured keep patterns followed by the implicit location pattern.
    patterns: Vec<String>,
    /// The same patterns compiled once, as a set, when the set builds.
    matcher: Option<regex::RegexSet>,
    head_lines: usize,
    tail_lines: usize,
    collapse_threshold: usize,
    /// Lines seen so far (complete ones, plus the final unterminated one
    /// once finishing).
    total: usize,
    /// Lines fed to the fold window (0 until the threshold is exceeded).
    fed: usize,
    /// The first `head_lines` lines of the window.
    head: Vec<String>,
    /// The last lines of the window (at most `tail_lines`).
    ring: std::collections::VecDeque<String>,
    /// Kept middle lines with the run of omitted lines before each.
    kept_mid: Vec<(usize, String)>,
    /// Omitted middle lines since the last kept one.
    run: usize,
    /// Accumulated token count of the raw chunks.
    raw_tokens: usize,
    /// Lines held verbatim while the total is within the threshold.
    prefix: Vec<(Vec<u8>, Vec<u8>)>,
    /// Bytes of the current unterminated line.
    pending: Vec<u8>,
    /// The current line grew over `LINE_BYTES_MAX` bytes and was truncated;
    /// its rest is dropped up to its terminator.
    skipping: bool,
    /// Number of bytes pushed so far.
    pushed_len: usize,
    /// All bytes pushed so far.
    pushed: Ghost<Seq<u8>>,
    /// The `(chunk, line)` pairs consumed so far.
    items: Ghost<Seq<(Seq<u8>, Seq<u8>)>>,
    /// The line texts fed to the window so far.
    fed_texts: Ghost<Seq<Seq<char>>>,
}

/// View of kept middle lines.
pub open spec fn kept_view(v: Seq<(usize, String)>) -> Seq<(nat, Seq<char>)> {
    v.map_values(|p: (usize, String)| (p.0 as nat, p.1@))
}

/// View of a sequence of strings.
pub open spec fn strings_view(v: Seq<String>) -> Seq<Seq<char>> {
    v.map_values(|s: String| s@)
}

/// View of prefix items.
pub open spec fn items_view(v: Seq<(Vec<u8>, Vec<u8>)>) -> Seq<(Seq<u8>, Seq<u8>)> {
    v.map_values(|p: (Vec<u8>, Vec<u8>)| (p.0@, p.1@))
}

pub proof fn lemma_omitted_run_bound(pats: Seq<Seq<char>>, m: Seq<Seq<char>>)
    ensures
        omitted_run(pats, m) <= m.len(),
        kept_middle(pats, m).len() + omitted_run(pats, m) <= m.len(),
    decreases m.len(),
{
    if m.len() > 0 {
        lemma_omitted_run_bound(pats, m.drop_last());
    }
}

impl StreamCompressor {
    /// The configured keep patterns followed by the implicit one.
    pub closed spec fn pats(&self) -> Seq<Seq<char>> {
        pattern_views(self.patterns@)
    }

    pub closed spec fn head_param(&self) -> usize {
        self.head_lines
    }

    pub closed spec fn tail_param(&self) -> usize {
        self.tail_lines
    }

    pub closed spec fn threshold_param(&self) -> usize {
        self.collapse_threshold
    }

    /// All bytes pushed so far.
    pub closed spec fn pushed(&self) -> Seq<u8> {
        self.pushed@
    }

    /// The fold window holds exactly the state of having fed `fed_texts`.
    closed spec fn window_ok(&self) -> bool {
        let t = self.fed_texts@;
        let n = t.len();
        let h = head_count(n, self.head_lines as nat);
        let tl = tail_count(n, self.head_lines as nat, self.tail_lines as nat);
        let m = t.subrange(h as int, n - tl);
        &&& self.fed == n
        &&& (self.matcher matches Some(set) ==> regex_set_patterns(set) == self.pats())
        &&& strings_view(self.head@) == t.subrange(0, h as int)
        &&& strings_view(self.ring@) == t.subrange(n - tl, n as int)
        &&& kept_view(self.kept_mid@) == kept_middle(self.pats(), m)
        &&& self.run == omitted_run(self.pats(), m)
    }

    /// Feed one line text into the fold window.
    fn feed(&mut self, text: String)
        requires
            old(self).window_ok(),
            old(self).fed < usize::MAX,
        ensures
            final(self).window_ok(),
            final(self).fed_texts@ == old(self).fed_texts@.push(text@),
            final(self).patterns == old(self).patterns,
            final(self).matcher == old(self).matcher,
            final(self).head_lines == old(self).head_lines,
            final(self).tail_lines == old(self).tail_lines,
            final(self).collapse_threshold == old(self).collapse_threshold,
            final(self).total == old(self).total,
            final(self).raw_tokens == old(self).raw_tokens,
            final(self).prefix == old(self).prefix,
            final(self).pending == old(self).pending,
            final(self).skipping == old(self).skipping,
            final(self).pushed_len == old(self).pushed_len,
            final(self).pushed == old(self).pushed,
            final(self).items == old(self).items,
    {
        let ghost t = self.fed_texts@;
        let ghost n: int = t.len() as int;
        let ghost x = text@;
        let ghost t2 = t.push(x);
        let ghost pats = self.pats();
        let ghost h = head_count(n as nat, self.head_lines as nat);
        let ghost tl = tail_count(n as nat, self.head_lines as nat, self.tail_lines as nat);
        let ghost m = t.subrange(h as int, n - tl);
        proof {
            lemma_omitted_run_bound(pats, m);
            assert(strings_view(self.ring@).len() == self.ring@.len());
            assert(self.ring@.len() == tl);
            assert(strings_view(self.head@).len() == self.head@.len());
        }
        if self.fed < self.head_lines {
            self.head.push(text);
            proof {
                assert(t2.subrange(0, n + 1) == t.subrange(0, n).push(x));
                assert(t2.subrange(n + 1, n + 1) == t.subrange(n, n));
            }
        } else {
            let ghost ring_old = self.ring@;
            self.ring.push_back(text);
            let ghost ring_before = self.ring@;
            proof {
                assert(strings_view(ring_before) == strings_view(ring_old).push(x));
                assert(strings_view(ring_before) == t2.subrange(n - tl, n + 1));
            }
            if self.ring.len() > self.tail_lines {
                let popped = self.ring.pop_front();
                if let Some(line) = popped {
                    proof {
                        assert(tl == self.tail_lines);
                        assert(strings_view(ring_before)[0] == ring_before[0]@);
                        assert(line@ == t2[n - tl]);
                        assert(strings_view(self.ring@) == strings_view(ring_before).subrange(1, tl as int + 1));
                        let m2 = t2.subrange(h as int, n + 1 - tl);
                        assert(m2 == m.push(line@));
                        assert(m2.drop_last() == m);
                        assert(strings_view(self.ring@) == t2.subrange(n + 1 - tl, n + 1));
                    }
                    let keep = match &self.matcher {
                        Some(set) => regex_set_is_match(set, line.as_str()),
                        None => any_pattern_matches(&self.patterns, line.as_str()),
                    };
                    if keep {
                        let ghost km = self.kept_mid@;
                        let ghost entry = (self.run, line);
                        self.kept_mid.push((self.run, line));
                        proof {
                            assert(kept_view(km.push(entry)) == kept_view(km).push((entry.0 as nat, entry.1@)));
                        }
                        self.run = 0;
                    } else {
                        self.run = self.run + 1;
                    }
                }
            } else {
                proof {
                    assert(t2.subrange(h as int, n + 1 - (tl + 1)) == m);
                    assert(t2.subrange(n + 1 - (tl + 1), n + 1) == t.subrange(n - tl, n).push(x));
                }
            }
            proof {
                assert(t2.subrange(0, h as int) == t.subrange(0, h as int));
            }
        }
        self.fed = self.fed + 1;
        self.fed_texts = Ghost(t2);
        proof {
            let n2 = n + 1;
            let h2 = head_count(n2 as nat, self.head_lines as nat);
            let tl2 = tail_count(n2 as nat, self.head_lines as nat, self.tail_lines as nat);
            let m2 = t2.subrange(h2 as int, n2 - tl2);
            assert(strings_view(self.head@) == t2.subrange(0, h2 as int));
            assert(strings_view(self.ring@) == t2.subrange(n2 - tl2, n2));
            assert(kept_view(self.kept_mid@) == kept_middle(pats, m2));
            assert(self.run == omitted_run(pats, m2));
        }
    }

    /// The compressor's bookkeeping agrees with the lines consumed so far.
    closed spec fn inv(&self) -> bool {
        let items = self.items@;
        let n = items.len();
        &&& self.window_ok()
        &&& self.total == n
        &&& self.raw_tokens == raw_token_sum(items)
        &&& if n <= self.collapse_threshold {
            &&& items_view(self.prefix@) == items
            &&& self.fed_texts@.len() == 0
        } else {
            &&& self.prefix@.len() == 0
            &&& self.fed_texts@ == line_texts(items)
        }
    }

    /// The consumed lines are exactly the complete lines of the pushed bytes.
    closed spec fn stream_ok(&self) -> bool {
        let p = self.pushed@;
        &&& self.items@ == consumed_items(p)
        &&& self.skipping == (pending(p).len() > LINE_BYTES_MAX)
        &&& self.pending@ == if self.skipping { Seq::<u8>::empty() } else { pending(p) }
        &&& self.pushed_len == p.len()
        &&& self.total + self.pending@.len() <= self.pushed_len
    }

    /// The compressor is ready to take more bytes.
    pub closed spec fn ready(&self) -> bool {
        self.inv() && self.stream_ok()
    }

    /// Number of bytes pushed so far.
    pub closed spec fn pushed_count(&self) -> nat {
        self.pushed_len as nat
    }

    /// Number of bytes pushed so far.
    pub fn bytes_pushed(&self) -> (n: usize)
        requires
            self.ready(),
        ensures
            n == self.pushed_count(),
            n == self.pushed().len(),
    {
        self.pushed_len
    }

    /// Process one line: `chunk` is its raw bytes, `line` its text bytes.
    fn consume(&mut self, chunk: Vec<u8>, line: Vec<u8>)
        requires
            old(self).inv(),
            old(self).total < usize::MAX,
        ensures
            final(self).inv(),
            final(self).items@ == old(self).items@.push((chunk@, line@)),
            final(self).patterns == old(self).patterns,
            final(self).matcher == old(self).matcher,
            final(self).head_lines == old(self).head_lines,
            final(self).tail_lines == old(self).tail_lines,
            final(self).collapse_threshold == old(self).collapse_threshold,
            final(self).pending == old(self).pending,
            final(self).skipping == old(self).skipping,
            final(self).pushed_len == old(self).pushed_len,
            final(self).pushed == old(self).pushed,
    {
        let ghost items = self.items@;
        let ghost items2 = items.push((chunk@, line@));
        proof {
            if items.len() <= self.collapse_threshold {
                assert(self.fed_texts@.len() == 0);
                assert(self.fed_texts@ =~= Seq::<Seq<char>>::empty());
            }
        }
        self.total = self.total + 1;
        let chunk_text = lossy_string(chunk.as_slice());
        let t = estimate_tokens(chunk_text.as_str());
        self.raw_tokens = self.raw_tokens.saturating_add(t);
        self.items = Ghost(items2);
        proof {
            assert(items2.drop_last() == items);
            assert(line_texts(items2) == line_texts(items).push(utf8_lossy(line@)));
        }
        if self.total <= self.collapse_threshold {
            let ghost pv = self.prefix@;
            self.prefix.push((chunk, line));
            proof {
                assert(items_view(pv.push((chunk, line))) == items_view(pv).push((chunk@, line@)));
            }
            return;
        }
        if self.prefix.len() > 0 {
            proof {
                assert(items_view(self.prefix@).len() == self.prefix@.len());
                assert(items.len() <= self.collapse_threshold);
                assert(items.subrange(0, 0) == Seq::<(Seq<u8>, Seq<u8>)>::empty());
                assert(self.fed_texts@ == Seq::<Seq<char>>::empty());
                assert(line_texts(items.subrange(0, 0)) == Seq::<Seq<char>>::empty());
            }
            let mut prefix: Vec<(Vec<u8>, Vec<u8>)> = Vec::new();
            std::mem::swap(&mut prefix, &mut self.prefix);
            let mut j: usize = 0;
            while j < prefix.len()
                invariant
                    j <= prefix@.len(),
                    items_view(prefix@) == items,
                    items.len() == prefix@.len(),
                    self.window_ok(),
                    self.fed_texts@ == line_texts(items.subrange(0, j as int)),
                    self.prefix@.len() == 0,
                    self.total == items2.len(),
                    self.items@ == items2,
                    self.raw_tokens == raw_token_sum(items2),
                    self.total <= usize::MAX,
                    self.patterns == old(self).patterns,
                    self.matcher == old(self).matcher,
                    self.head_lines == old(self).head_lines,
                    self.tail_lines == old(self).tail_lines,
                    self.collapse_threshold == old(self).collapse_threshold,
                    self.pending == old(self).pending,
                    self.skipping == old(self).skipping,
                    self.pushed_len == old(self).pushed_len,
                    self.pushed == old(self).pushed,
                decreases prefix@.len() - j,
            {
                let text = lossy_string(prefix[j].1.as_slice());
                proof {
                    assert(items_view(prefix@)[j as int] == (prefix@[j as int].0@, prefix@[j as int].1@));
                    assert(items.subrange(0, j + 1) == items.subrange(0, j as int).push(items[j as int]));
                    assert(line_texts(items.subrange(0, j + 1))
                        == line_texts(items.subrange(0, j as int)).push(utf8_lossy(items[j as int].1)));
                }
                self.feed(text);
                j += 1;
            }
            proof {
                assert(items.subrange(0, items.len() as int) == items);
            }
        } else {
            proof {
                assert(items_view(self.prefix@).len() == 0);
                if items.len() <= self.collapse_threshold {
                    assert(items.len() == 0);
                    assert(self.fed_texts@ == Seq::<Seq<char>>::empty());
                    assert(line_texts(items) == Seq::<Seq<char>>::empty());
                }
                assert(self.fed_texts@ == line_texts(items));
            }
        }
        let text = lossy_string(line.as_slice());
        self.feed(text);
    }

    /// Create a streaming compressor for `options`. Fails on the first keep
    /// pattern that is blank or does not compile.
    pub fn new(options: &CompressOptions) -> (r: Result<Self, ExecError>)
        ensures
            match r {
                Ok(c) => {
                    &&& c.ready()
                    &&& c.pushed() == Seq::<u8>::empty()
                    &&& c.pushed_count() == 0
                    &&& c.pats() == effective_patterns(options.keep_patterns@)
                    &&& c.head_param() == options.head_lines
                    &&& c.tail_param() == options.tail_lines
                    &&& c.threshold_param() == options.collapse_threshold
                    &&& first_invalid_pattern(options.keep_patterns@) is None
                },
                Err(ExecError::InvalidPattern { pattern, message }) =>
                    first_invalid_pattern(options.keep_patterns@) == Some((pattern, message@)),
            },
    {
        let mut patterns: Vec<String> = Vec::new();
        let mut i: usize = 0;
        proof {
            assert(options.keep_patterns@.skip(0) == options.keep_patterns@);
        }
        while i < options.keep_patterns.len()
            invariant
                i <= options.keep_patterns@.len(),
                patterns@ == options.keep_patterns@.subrange(0, i as int),
                first_invalid_pattern(options.keep_patterns@)
                    == first_invalid_pattern(options.keep_patterns@.skip(i as int)),
            decreases options.keep_patterns@.len() - i,
        {
            let p = &options.keep_patterns[i];
            let ghost rest = options.keep_patterns@.skip(i as int);
            proof {
                assert(rest[0] == *p);
                assert(rest.drop_first() == options.keep_patterns@.skip(i + 1));
            }
            if let Some(err) = pattern_error(p) {
                return Err(err);
            }
            patterns.push(p.clone());
            i += 1;
            proof {
                assert(patterns@ == options.keep_patterns@.subrange(0, i as int));
            }
        }
        patterns.push(String::from_str("^\\s+-->"));
        proof {
            assert(options.keep_patterns@.subrange(0, options.keep_patterns@.len() as int)
                == options.keep_patterns@);
            assert(options.keep_patterns@.skip(options.keep_patterns@.len() as int).len() == 0);
            assert(pattern_views(patterns@) == effective_patterns(options.keep_patterns@));
        }
        let matcher = build_regex_set_ci(&patterns);
        let c = StreamCompressor {
            patterns,
            matcher,
            head_lines: options.head_lines,
            tail_lines: options.tail_lines,
            collapse_threshold: options.collapse_threshold,
            total: 0,
            fed: 0,
            head: Vec::new(),
            ring: std::collections::VecDeque::new(),
            kept_mid: Vec::new(),
            run: 0,
            raw_tokens: 0,
            prefix: Vec::new(),
            pending: Vec::new(),
            skipping: false,
            pushed_len: 0,
            pushed: Ghost(Seq::empty()),
            items: Ghost(Seq::empty()),
            fed_texts: Ghost(Seq::empty()),
        };
        proof {
            lemma_no_lf(Seq::<u8>::empty());
            assert(consumed_items(Seq::<u8>::empty()) == Seq::<(Seq<u8>, Seq<u8>)>::empty());
            assert(items_view(c.prefix@) == Seq::<(Seq<u8>, Seq<u8>)>::empty());
            assert(strings_view(c.head@) == Seq::<Seq<char>>::empty());
            assert(strings_view(c.ring@) == Seq::<Seq<char>>::empty());
            assert(kept_view(c.kept_mid@) == Seq::<(nat, Seq<char>)>::empty());
            let t = c.fed_texts@;
            assert(t.subrange(0, 0) =~= Seq::<Seq<char>>::empty());
            assert(strings_view(c.head@) =~= t.subrange(0, 0));
            assert(strings_view(c.ring@) =~= t.subrange(0, 0));
            assert(kept_middle(c.pats(), t.subrange(0, 0)) =~= Seq::<(nat, Seq<char>)>::empty());
            assert(c.window_ok());
            assert(c.inv());
            assert(c.stream_ok());
            assert(c.pats() == effective_patterns(options.keep_patterns@));
        }
        Ok(c)
    }
}

impl StreamCompressor {
    /// Feed a chunk of raw output bytes. Chunks may split lines anywhere.
    pub fn push(&mut self, bytes: &[u8])
        requires
            old(self).ready(),
            old(self).pushed_count() + bytes@.len() <= usize::MAX,
        ensures
            final(self).ready(),
            final(self).pushed() == old(self).pushed() + bytes@,
            final(self).pushed_count() == old(self).pushed_count() + bytes@.len(),
            final(self).pats() == old(self).pats(),
            final(self).head_param() == old(self).head_param(),
            final(self).tail_param() == old(self).tail_param(),
            final(self).threshold_param() == old(self).threshold_param(),
    {
        let ghost p0 = self.pushed@;
        let mut buf: Vec<u8> = Vec::new();
        std::mem::swap(&mut buf, &mut self.pending);
        let off = buf.len();
        push_bytes(&mut buf, bytes);
        self.pushed_len = self.pushed_len + bytes.len();
        let ghost p1 = p0 + bytes@;
        proof {
            assert(bytes@.take(0) == Seq::<u8>::empty());
            assert(p0 + bytes@.take(0) == p0);
            assert(buf@.subrange(0, off as int) == buf@.subrange(0, off as int));
        }
        let mut start: usize = 0;
        let mut i: usize = off;
        while i < buf.len()
            invariant
                off <= i <= buf@.len(),
                buf@.len() == off + bytes@.len(),
                forall|k: int| off <= k < buf@.len() ==> buf@[k] == bytes@[k - off],
                start <= i,
                self.items@ == consumed_items(p0 + bytes@.take(i - off)),
                self.skipping == (pending(p0 + bytes@.take(i - off)).len() > LINE_BYTES_MAX),
                !self.skipping ==> buf@.subrange(start as int, i as int) == pending(p0 + bytes@.take(i - off)),
                self.total + (if self.skipping { 0 } else { i - start }) <= p0.len() + (i - off),
                self.inv(),
                self.pushed_len == p1.len(),
                p1 == p0 + bytes@,
                self.pushed@ == p0,
                self.pending@.len() == 0,
                self.patterns == old(self).patterns,
                self.head_lines == old(self).head_lines,
                self.tail_lines == old(self).tail_lines,
                self.collapse_threshold == old(self).collapse_threshold,
            decreases buf@.len() - i,
        {
            let ghost seen = p0 + bytes@.take(i - off);
            let ghost pp = pending(seen);
            let b = buf[i];
            proof {
                lemma_consumed_step(seen, b);
                assert(seen.push(b) == p0 + bytes@.take(i + 1 - off));
                assert(seen.len() == p0.len() + (i - off));
            }
            if b == 10u8 {
                if self.skipping {
                    self.skipping = false;
                } else {
                    let chunk = copy_bytes(buf.as_slice(), start, i + 1);
                    let line = terminated_line(chunk.as_slice());
                    proof {
                        assert(chunk@ == buf@.subrange(start as int, i as int).push(b));
                    }
                    self.consume(chunk, line);
                }
                start = i + 1;
            } else if !self.skipping && i - start == LINE_BYTES_MAX {
                let mut cut = copy_bytes(buf.as_slice(), start, i);
                cut.push(10u8);
                let line = terminated_line(cut.as_slice());
                proof {
                    assert(pp.push(b).take(LINE_BYTES_MAX as int) == pp);
                }
                let ghost cut_item = (cut@, line@);
                proof {
                    assert(cut@ == pp.push(lf()));
                }
                self.consume(cut, line);
                let marker_text = "... [line truncated at 1048576 bytes]";
                let marker = marker_text.as_bytes();
                let mline = copy_bytes(marker, 0, marker.len());
                let mut mchunk = copy_bytes(marker, 0, marker.len());
                mchunk.push(10u8);
                let ghost marker_item = (mchunk@, mline@);
                proof {
                    assert(marker@.subrange(0, marker@.len() as int) == marker@);
                    assert(marker_text@ == truncation_marker_text());
                    assert(mline@ == encode_utf8(truncation_marker_text()));
                    assert(truncated_items(pp.push(b)) == seq![cut_item, marker_item]);
                    assert(consumed_items(seen.push(b)) == consumed_items(seen) + truncated_items(pp.push(b)));
                    assert(consumed_items(seen) + seq![cut_item, marker_item]
                        == consumed_items(seen).push(cut_item).push(marker_item));
                }
                self.consume(mchunk, mline);
                self.skipping = true;
            } else {
                proof {
                    if !self.skipping {
                        assert(buf@.subrange(start as int, i + 1) == buf@.subrange(start as int, i as int).push(b));
                    }
                }
            }
            i += 1;
        }
        proof {
            assert(bytes@.take(i - off) == bytes@);
        }
        if !self.skipping {
            if start == 0 {
                proof {
                    assert(buf@.subrange(0, buf@.len() as int) == buf@);
                }
                self.pending = buf;
            } else {
                self.pending = copy_bytes(buf.as_slice(), start, buf.len());
            }
        }
        self.pushed = Ghost(p1);
        proof {
            assert(p0 + bytes@.take(i - off) == p1);
            if self.skipping {
                assert(self.pending@ == Seq::<u8>::empty());
            }
            assert(self.stream_ok());
        }
    }

    /// Render the final compressed view and statistics of everything pushed.
    pub fn finish(self) -> (r: CompressResult)
        requires
            self.ready(),
        ensures
            r.text@ == compressed_text(self.pushed(), self.pats(), self.head_param() as nat,
                self.tail_param() as nat, self.threshold_param() as nat),
            r.stats == compressed_stats(self.pushed(), self.pats(), self.head_param() as nat,
                self.tail_param() as nat, self.threshold_param() as nat),
    {
        let ghost pushed = self.pushed@;
        let ghost pats = self.pats();
        let ghost e = Seq::<(Seq<u8>, Seq<u8>)>::empty();
        let mut s = self;
        proof {
            lemma_concat_chunks(pushed);
            if pending(pushed).len() > LINE_BYTES_MAX {
                assert(s.items@ == stream_items(pushed));
            } else if pending(pushed).len() == 0 {
                assert(chunk_items(chunks(pushed)) + e == chunk_items(chunks(pushed)));
                assert(s.items@ == stream_items(pushed));
            } else {
                assert(chunk_items(chunks(pushed)) + e == chunk_items(chunks(pushed)));
            }
        }
        if s.pending.len() > 0 {
            let mut p: Vec<u8> = Vec::new();
            std::mem::swap(&mut p, &mut s.pending);
            let line = copy_bytes(p.as_slice(), 0, p.len());
            proof {
                assert(p@.subrange(0, p@.len() as int) == p@);
            }
            s.consume(p, line);
        }
        let ghost items = s.items@;
        proof {
            assert(items == stream_items(pushed));
        }
        if s.total <= s.collapse_threshold {
            let mut text: Vec<u8> = Vec::new();
            let mut j: usize = 0;
            while j < s.prefix.len()
                invariant
                    j <= s.prefix@.len(),
                    items_view(s.prefix@) == items,
                    text@ == concat(items.subrange(0, j as int).map_values(|it: (Seq<u8>, Seq<u8>)| it.0)),
                decreases s.prefix@.len() - j,
            {
                proof {
                    assert(items_view(s.prefix@)[j as int] == (s.prefix@[j as int].0@, s.prefix@[j as int].1@));
                    let f = |it: (Seq<u8>, Seq<u8>)| it.0;
                    assert(items.subrange(0, j + 1).map_values(f)
                        == items.subrange(0, j as int).map_values(f).push(items[j as int].0));
                    lemma_concat_push(items.subrange(0, j as int).map_values(f), items[j as int].0);
                }
                push_bytes(&mut text, s.prefix[j].0.as_slice());
                j += 1;
            }
            proof {
                assert(items.subrange(0, items.len() as int) == items);
                assert(text@ == raw_bytes(items));
            }
            let lossy = lossy_string(text.as_slice());
            let tokens = estimate_tokens(lossy.as_str());
            return CompressResult {
                text,
                stats: CompressStats {
                    total_lines: s.total,
                    kept_lines: s.total,
                    omitted_lines: 0,
                    original_tokens: tokens,
                    compressed_tokens: tokens,
                    saved_percent: 0,
                    collapsed: false,
                    pattern_kept_lines: 0,
                },
            };
        }
        s.render()
    }
}

/// Lines encoded as UTF-8.
pub open spec fn encoded(ls: Seq<Seq<char>>) -> Seq<Seq<u8>> {
    ls.map_values(|l: Seq<char>| encode_utf8(l))
}

/// Append one line to the rendered output.
fn emit(out: &mut Vec<u8>, first: bool, Ghost(lines): Ghost<Seq<Seq<char>>>, s: &str)
    requires
        old(out)@ == join_lf(encoded(lines)),
        first == (lines.len() == 0),
    ensures
        final(out)@ == join_lf(encoded(lines.push(s@))),
{
    proof {
        assert(encoded(lines.push(s@)) == encoded(lines).push(encode_utf8(s@)));
        lemma_join_lf_push(encoded(lines), encode_utf8(s@));
    }
    if !first {
        out.push(10u8);
    }
    push_bytes(out, s.as_bytes());
}

/// The fold marker for `n` omitted lines.
fn omit_marker(n: usize) -> (s: String)
    ensures
        s@ == omit_marker_text(n as nat),
{
    let mut v: Vec<char> = Vec::new();
    push_str(&mut v, "... [");
    let d = decimal_chars(n);
    push_all(&mut v, d.as_slice());
    if n == 1 {
        push_str(&mut v, " line omitted]");
    } else {
        push_str(&mut v, " lines omitted]");
    }
    string_from(v.as_slice())
}

impl StreamCompressor {
    /// Render the fold path from the window state.
    fn render(self) -> (r: CompressResult)
        requires
            self.inv(),
            self.items@.len() > self.collapse_threshold,
        ensures
            r.text@ == folded_text(self.pats(), line_texts(self.items@), self.head_lines as nat,
                self.tail_lines as nat),
            r.stats == ({
                let items = self.items@;
                let texts = line_texts(items);
                let kept = folded_kept(self.pats(), texts, self.head_lines as nat, self.tail_lines as nat);
                let ct = token_count(utf8_lossy(folded_text(self.pats(), texts, self.head_lines as nat,
                    self.tail_lines as nat)));
                CompressStats {
                    total_lines: items.len() as usize,
                    kept_lines: kept as usize,
                    omitted_lines: (items.len() - kept) as usize,
                    original_tokens: raw_token_sum(items),
                    compressed_tokens: ct,
                    saved_percent: saved_percent(raw_token_sum(items) as nat, ct as nat) as u32,
                    collapsed: true,
                    pattern_kept_lines: pattern_kept(self.pats(), texts, self.head_lines as nat,
                        self.tail_lines as nat) as usize,
                }
            }),
    {
        let ghost pats = self.pats();
        let ghost t = self.fed_texts@;
        let ghost n = t.len();
        let ghost h = head_count(n, self.head_lines as nat);
        let ghost tl = tail_count(n, self.head_lines as nat, self.tail_lines as nat);
        let ghost m = t.subrange(h as int, n - tl);
        let ghost km = kept_middle(pats, m);
        proof {
            lemma_omitted_run_bound(pats, m);
            assert(h + tl <= n);
            assert(strings_view(self.head@).len() == self.head@.len());
            assert(strings_view(self.ring@).len() == self.ring@.len());
            assert(kept_view(self.kept_mid@).len() == self.kept_mid@.len());
        }
        let mut out: Vec<u8> = Vec::new();
        let mut first = true;
        let ghost mut lines: Seq<Seq<char>> = Seq::empty();
        let mut j: usize = 0;
        while j < self.head.len()
            invariant
                j <= self.head@.len(),
                self.head@.len() == h,
                h + tl <= n,
                n == t.len(),
                strings_view(self.head@) == t.subrange(0, h as int),
                lines == t.subrange(0, j as int),
                out@ == join_lf(encoded(lines)),
                first == (lines.len() == 0),
            decreases self.head@.len() - j,
        {
            proof {
                assert(strings_view(self.head@)[j as int] == self.head@[j as int]@);
                assert(t.subrange(0, j + 1) == t.subrange(0, j as int).push(self.head@[j as int]@));
            }
            emit(&mut out, first, Ghost(lines), self.head[j].as_str());
            proof {
                lines = lines.push(self.head@[j as int]@);
            }
            first = false;
            j += 1;
        }
        let ghost head_part = lines;
        let mut k: usize = 0;
        proof {
            assert(km.subrange(0, 0) == Seq::<(nat, Seq<char>)>::empty());
            assert(head_part + render_middle(km.subrange(0, 0)) == head_part);
        }
        while k < self.kept_mid.len()
            invariant
                k <= self.kept_mid@.len(),
                kept_view(self.kept_mid@) == km,
                lines == head_part + render_middle(km.subrange(0, k as int)),
                out@ == join_lf(encoded(lines)),
                first == (lines.len() == 0),
            decreases self.kept_mid@.len() - k,
        {
            let run = self.kept_mid[k].0;
            let ghost entry = km[k as int];
            proof {
                assert(kept_view(self.kept_mid@)[k as int] == (self.kept_mid@[k as int].0 as nat,
                    self.kept_mid@[k as int].1@));
                assert(km.subrange(0, k + 1).drop_last() == km.subrange(0, k as int));
                assert(km.subrange(0, k + 1).last() == entry);
            }
            if run > 0 {
                let marker = omit_marker(run);
                emit(&mut out, first, Ghost(lines), marker.as_str());
                proof {
                    lines = lines.push(marker@);
                }
                first = false;
            }
            emit(&mut out, first, Ghost(lines), self.kept_mid[k].1.as_str());
            proof {
                lines = lines.push(self.kept_mid@[k as int].1@);
                let prev = render_middle(km.subrange(0, k as int));
                let with_marker = if entry.0 > 0 { prev.push(omit_marker_text(entry.0)) } else { prev };
                assert(render_middle(km.subrange(0, k + 1)) == with_marker.push(entry.1));
                if entry.0 > 0 {
                    assert(head_part + prev.push(omit_marker_text(entry.0))
                        == (head_part + prev).push(omit_marker_text(entry.0)));
                }
                assert(head_part + with_marker.push(entry.1) == (head_part + with_marker).push(entry.1));
            }
            first = false;
            k += 1;
        }
        proof {
            assert(km.subrange(0, km.len() as int) == km);
        }
        let ghost mid_part = lines;
        if self.run > 0 {
            let marker = omit_marker(self.run);
            emit(&mut out, first, Ghost(lines), marker.as_str());
            proof {
                lines = lines.push(marker@);
            }
            first = false;
        }
        let ghost run_part = lines;
        let mut q: usize = 0;
        proof {
            assert(run_part + t.subrange(n - tl, n - tl) == run_part);
        }
        while q < self.ring.len()
            invariant
                q <= self.ring@.len(),
                self.ring@.len() == tl,
                h + tl <= n,
                n == t.len(),
                strings_view(self.ring@) == t.subrange(n - tl, n as int),
                lines == run_part + t.subrange(n - tl, n - tl + q),
                out@ == join_lf(encoded(lines)),
                first == (lines.len() == 0),
            decreases self.ring@.len() - q,
        {
            proof {
                assert(strings_view(self.ring@)[q as int] == self.ring@[q as int]@);
                assert(t.subrange(n - tl, n - tl + q + 1) == t.subrange(n - tl, n - tl + q).push(
                    self.ring@[q as int]@));
                assert(run_part + t.subrange(n - tl, n - tl + q).push(self.ring@[q as int]@)
                    == (run_part + t.subrange(n - tl, n - tl + q)).push(self.ring@[q as int]@));
            }
            emit(&mut out, first, Ghost(lines), self.ring[q].as_str());
            proof {
                lines = lines.push(self.ring@[q as int]@);
            }
            first = false;
            q += 1;
        }
        proof {
            assert(lines == folded_lines(pats, t, self.head_lines as nat, self.tail_lines as nat));
        }
        let kept = self.head.len() + self.kept_mid.len() + self.ring.len();
        let lossy = lossy_string(out.as_slice());
        let compressed_tokens = estimate_tokens(lossy.as_str());
        let pct = saved_pct(self.raw_tokens, compressed_tokens);
        CompressResult {
            text: out,
            stats: CompressStats {
                total_lines: self.total,
                kept_lines: kept,
                omitted_lines: self.total - kept,
                original_tokens: self.raw_tokens,
                compressed_tokens,
                saved_percent: pct,
                collapsed: true,
                pattern_kept_lines: self.kept_mid.len(),
            },
        }
    }
}

/// The raw chunks of terminated chunks, none of them over-long,
/// concatenate back to the chunks.
proof fn lemma_chunk_items_raw(cs: Seq<Seq<u8>>)
    requires
        forall|i: int| 0 <= i < cs.len() ==> #[trigger] cs[i].len() <= LINE_BYTES_MAX + 1,
    ensures
        raw_bytes(chunk_items(cs)) == concat(cs),
    decreases cs.len(),
{
    if cs.len() > 0 {
        let f = |it: (Seq<u8>, Seq<u8>)| it.0;
        let a = chunk_items(cs.drop_last());
        assert forall|i: int| 0 <= i < cs.drop_last().len() implies #[trigger] cs.drop_last()[i].len()
            <= LINE_BYTES_MAX + 1 by {
            assert(cs.drop_last()[i] == cs[i]);
        }
        lemma_chunk_items_raw(cs.drop_last());
        assert(cs[cs.len() - 1].len() <= LINE_BYTES_MAX + 1);
        assert(chunk_items(cs) == a.push((cs.last(), strip_terminator(cs.last()))));
        assert(chunk_items(cs).map_values(f) == a.map_values(f).push(cs.last()));
        lemma_concat_push(a.map_values(f), cs.last());
        lemma_concat_push(cs.drop_last(), cs.last());
        assert(cs.drop_last().push(cs.last()) == cs);
    }
}

/// When no line is over-long, the raw chunks of a stream's items give back
/// the stream.
pub proof fn lemma_stream_items_raw(s: Seq<u8>)
    requires
        lines_within_budget(s),
    ensures
        raw_bytes(stream_items(s)) == s,
{
    let f = |it: (Seq<u8>, Seq<u8>)| it.0;
    lemma_concat_chunks(s);
    let cs = chunks(s);
    lemma_chunk_items_raw(cs);
    let a = chunk_items(cs);
    if pending(s).len() > 0 {
        assert(stream_items(s) == a.push((pending(s), pending(s))));
        assert(stream_items(s).map_values(f) == a.map_values(f).push(pending(s)));
        lemma_concat_push(a.map_values(f), pending(s));
    } else {
        assert(stream_items(s) == a);
        assert(pending(s) == Seq::<u8>::empty());
        assert(concat(cs) + pending(s) == concat(cs));
    }
}

/// One more byte on a stream: a line feed completes the pending line (or
/// ends the dropped rest of an over-long one); another byte extends the
/// pending line, which is truncated when it first grows over the limit.
proof fn lemma_consumed_step(p: Seq<u8>, b: u8)
    ensures
        ({
            let q = p.push(b);
            let pp = pending(p);
            &&& b == lf() ==> {
                &&& pending(q) == Seq::<u8>::empty()
                &&& consumed_items(q) == if pp.len() > LINE_BYTES_MAX {
                    consumed_items(p)
                } else {
                    consumed_items(p).push((pp.push(lf()), strip_terminator(pp.push(lf()))))
                }
            }
            &&& b != lf() ==> {
                &&& pending(q) == pp.push(b)
                &&& consumed_items(q) == if pp.len() == LINE_BYTES_MAX {
                    consumed_items(p) + truncated_items(pp.push(b))
                } else {
                    consumed_items(p)
                }
            }
        }),
{
    let q = p.push(b);
    let pp = pending(p);
    let e = Seq::<(Seq<u8>, Seq<u8>)>::empty();
    lemma_concat_chunks(p);
    lemma_chunks_append(p, seq![b]);
    assert(p + seq![b] == q);
    let cp = chunks(p);
    if b == lf() {
        let c = pp.push(lf());
        assert(pp + seq![b] == c);
        lemma_chunks_split(c, pp.len() as int);
        assert(c.take(pp.len() as int + 1) == c);
        assert(c.skip(pp.len() as int + 1) == Seq::<u8>::empty());
        lemma_no_lf(Seq::<u8>::empty());
        assert(chunks(c) == seq![c]);
        assert(chunks(q) == cp.push(c));
        assert(pending(q) == Seq::<u8>::empty());
        assert(cp.push(c).drop_last() == cp);
        assert(chunk_items(chunks(q)) == chunk_items(cp) + chunk_expand(c));
        assert(c.drop_last() == pp);
        assert(consumed_items(q) == chunk_items(cp) + chunk_expand(c) + e);
        if pp.len() > LINE_BYTES_MAX {
            assert(chunk_items(cp) + chunk_expand(c) + e == chunk_items(cp) + truncated_items(pp));
        } else {
            assert(consumed_items(p) == chunk_items(cp) + e);
            assert(chunk_items(cp) + chunk_expand(c) + e == (chunk_items(cp) + e).push(
                (c, strip_terminator(c))));
        }
    } else {
        let c = pp.push(b);
        assert(pp + seq![b] == c);
        assert(no_lf(c)) by {
            assert forall|i: int| 0 <= i < c.len() implies c[i] != lf() by {
                if i < pp.len() {
                    assert(c[i] == pp[i]);
                }
            }
        }
        lemma_no_lf(c);
        assert(chunks(q) == cp + Seq::<Seq<u8>>::empty());
        assert(cp + Seq::<Seq<u8>>::empty() == cp);
        assert(pending(q) == c);
        if pp.len() > LINE_BYTES_MAX {
            assert(c.take(LINE_BYTES_MAX as int) == pp.take(LINE_BYTES_MAX as int));
            assert(truncated_items(c) == truncated_items(pp));
        } else if pp.len() == LINE_BYTES_MAX {
            assert(consumed_items(p) == chunk_items(cp) + e);
            assert(chunk_items(cp) + e == chunk_items(cp));
        } else {
            assert(consumed_items(p) == chunk_items(cp) + e);
        }
    }
}

/// The message for a blank keep pattern.
pub open spec fn empty_pattern_message() -> Seq<char> {
    "pattern is empty or blank (it would match every line)"@
}

/// The problem with a single keep pattern, if any: blank patterns are
/// rejected, others must compile.
pub open spec fn pattern_problem(p: Seq<char>) -> Option<Seq<char>> {
    if crate::text::trim(p).len() == 0 {
        Some(empty_pattern_message())
    } else {
        match regex_search_ci(p, Seq::<char>::empty()) {
            Ok(_) => None,
            Err(m) => Some(m),
        }
    }
}

/// The first rejected pattern of a list, with its message.
pub open spec fn first_invalid_pattern(ps: Seq<String>) -> Option<(String, Seq<char>)>
    decreases ps.len(),
{
    if ps.len() == 0 {
        None
    } else {
        match pattern_problem(ps[0]@) {
            Some(m) => Some((ps[0], m)),
            None => first_invalid_pattern(ps.drop_first()),
        }
    }
}

/// The error a keep pattern raises, if any.
fn pattern_error(p: &String) -> (r: Option<ExecError>)
    ensures
        match r {
            None => pattern_problem(p@) is None,
            Some(ExecError::InvalidPattern { pattern, message }) => {
                &&& pattern == *p
                &&& pattern_problem(p@) == Some(message@)
            },
        },
{
    let v = chars_of(p.as_str());
    let (a, b) = crate::text::trim_bounds(v.as_slice(), 0, v.len());
    proof {
        assert(v@.subrange(0, v@.len() as int) == v@);
    }
    if a == b {
        return Some(ExecError::InvalidPattern {
            pattern: p.clone(),
            message: String::from_str("pattern is empty or blank (it would match every line)"),
        });
    }
    proof {
        reveal_strlit("");
        assert(""@ == Seq::<char>::empty());
        assert(v@.subrange(a as int, b as int).len() > 0);
        assert(crate::text::trim(p@).len() > 0);
    }
    match regex_is_match_ci(p.as_str(), "") {
        Ok(_) => None,
        Err(m) => Some(ExecError::InvalidPattern { pattern: p.clone(), message: m }),
    }
}


/// Compress command output.
///
/// Outputs with at most `options.collapse_threshold` lines pass through
/// byte for byte. Otherwise the kept lines are the head summary, the tail
/// summary, and every line matching a keep pattern; runs of other lines
/// fold into `... [N lines omitted]` markers. A line longer than
/// [`LINE_BYTES_MAX`] bytes keeps its first `LINE_BYTES_MAX` bytes and is
/// followed by a `... [line truncated at ...]` marker line. This feeds the whole text
/// through a [`StreamCompressor`], so both paths render the same bytes.
pub fn compress(output: &str, options: &CompressOptions) -> (r: Result<CompressResult, ExecError>)
    ensures
        match r {
            Ok(res) => {
                let pats = effective_patterns(options.keep_patterns@);
                let (h, t, thr) = (options.head_lines as nat, options.tail_lines as nat,
                    options.collapse_threshold as nat);
                &&& first_invalid_pattern(options.keep_patterns@) is None
                &&& res.text@ == compressed_text(output.spec_bytes(), pats, h, t, thr)
                &&& res.stats == compressed_stats(output.spec_bytes(), pats, h, t, thr)
            },
            Err(ExecError::InvalidPattern { pattern, message }) =>
                first_invalid_pattern(options.keep_patterns@) == Some((pattern, message@)),
        },
{
    let mut compressor = match StreamCompressor::new(options) {
        Ok(c) => c,
        Err(e) => return Err(e),
    };
    let bytes = output.as_bytes();
    let _n = bytes.len();
    compressor.push(bytes);
    proof {
        assert(Seq::<u8>::empty() + bytes@ == bytes@);
    }
    Ok(compressor.finish())
}

// ---------------------------------------------------------------------------
// Laws of the compressed view.

/// Outputs with at most `threshold` lines pass through unchanged, byte for
/// byte, with nothing omitted and nothing flagged.
pub proof fn law_small_output_passes_through(s: Seq<u8>, pats: Seq<Seq<char>>, head: nat, tail: nat, threshold: nat)
    requires
        stream_items(s).len() <= threshold,
        lines_within_budget(s),
    ensures
        compressed_text(s, pats, head, tail, threshold) == s,
        compressed_stats(s, pats, head, tail, threshold).omitted_lines == 0,
        compressed_stats(s, pats, head, tail, threshold).saved_percent == 0,
        !compressed_stats(s, pats, head, tail, threshold).collapsed,
{
    lemma_stream_items_raw(s);
}

/// The folded view starts with the head lines and ends with the tail lines.
pub proof fn law_head_and_tail_are_kept(pats: Seq<Seq<char>>, t: Seq<Seq<char>>, head: nat, tail: nat)
    ensures
        ({
            let out = folded_lines(pats, t, head, tail);
            let h = head_count(t.len(), head);
            let tl = tail_count(t.len(), head, tail);
            &&& out.len() >= h + tl
            &&& out.subrange(0, h as int) == t.subrange(0, h as int)
            &&& out.subrange(out.len() - tl, out.len() as int) == t.subrange(t.len() - tl, t.len() as int)
            &&& h == (if t.len() < head { t.len() } else { head })
        }),
{
    let h = head_count(t.len(), head);
    let tl = tail_count(t.len(), head, tail);
    let out = folded_lines(pats, t, head, tail);
    let a = t.subrange(0, h as int);
    let m = t.subrange(h as int, t.len() - tl);
    let run = omitted_run(pats, m);
    let b = render_middle(kept_middle(pats, m)) + (if run > 0 {
        seq![omit_marker_text(run)]
    } else {
        Seq::<Seq<char>>::empty()
    });
    let c = t.subrange(t.len() - tl, t.len() as int);
    assert(out == a + b + c);
    assert((a + b + c).subrange(0, h as int) == a);
    assert((a + b + c).subrange(out.len() - tl, out.len() as int) == c);
}

/// Every kept middle line appears in the rendered middle.
proof fn lemma_render_contains(k: Seq<(nat, Seq<char>)>, i: int)
    requires
        0 <= i < k.len(),
    ensures
        exists|j: int| 0 <= j < render_middle(k).len() && render_middle(k)[j] == k[i].1,
    decreases k.len(),
{
    let r = render_middle(k);
    if i == k.len() - 1 {
        assert(r[r.len() - 1] == k[i].1);
    } else {
        lemma_render_contains(k.drop_last(), i);
        let prev = render_middle(k.drop_last());
        let j = choose|j: int| 0 <= j < prev.len() && prev[j] == k.drop_last()[i].1;
        let with_marker = if k.last().0 > 0 { prev.push(omit_marker_text(k.last().0)) } else { prev };
        assert(r == with_marker.push(k.last().1));
        assert(r[j] == prev[j]);
    }
}

/// Every matching middle line is among the kept middle lines.
proof fn lemma_kept_contains(pats: Seq<Seq<char>>, m: Seq<Seq<char>>, i: int)
    requires
        0 <= i < m.len(),
        line_matches(pats, m[i]),
    ensures
        exists|j: int| 0 <= j < kept_middle(pats, m).len() && kept_middle(pats, m)[j].1 == m[i],
    decreases m.len(),
{
    let k = kept_middle(pats, m);
    if i == m.len() - 1 {
        assert(k[k.len() - 1].1 == m[i]);
    } else {
        lemma_kept_contains(pats, m.drop_last(), i);
        let prev = kept_middle(pats, m.drop_last());
        let j = choose|j: int| 0 <= j < prev.len() && prev[j].1 == m.drop_last()[i];
        assert(k[j] == prev[j]);
    }
}

/// Every line that matches a keep pattern survives in the folded view,
/// wherever it sits in the output.
pub proof fn law_matching_lines_are_kept(pats: Seq<Seq<char>>, t: Seq<Seq<char>>, head: nat, tail: nat, i: int)
    requires
        0 <= i < t.len(),
        line_matches(pats, t[i]),
    ensures
        exists|j: int| 0 <= j < folded_lines(pats, t, head, tail).len()
            && folded_lines(pats, t, head, tail)[j] == t[i],
{
    let h = head_count(t.len(), head);
    let tl = tail_count(t.len(), head, tail);
    let out = folded_lines(pats, t, head, tail);
    let a = t.subrange(0, h as int);
    let m = t.subrange(h as int, t.len() - tl);
    let run = omitted_run(pats, m);
    let km = kept_middle(pats, m);
    let r = render_middle(km);
    let b = r + (if run > 0 { seq![omit_marker_text(run)] } else { Seq::<Seq<char>>::empty() });
    let c = t.subrange(t.len() - tl, t.len() as int);
    assert(out == a + b + c);
    if i < h {
        assert(out[i] == t[i]);
    } else if i < t.len() - tl {
        assert(m[i - h] == t[i]);
        lemma_kept_contains(pats, m, i - h);
        let jk = choose|j: int| 0 <= j < km.len() && km[j].1 == m[i - h];
        lemma_render_contains(km, jk);
        let jr = choose|j: int| 0 <= j < r.len() && r[j] == km[jk].1;
        assert(out[a.len() + jr] == t[i]);
    } else {
        let j = out.len() - tl + (i - (t.len() - tl));
        assert(out[j] == t[i]);
    }
}

/// Sum of the omitted-run counts that precede kept lines.
pub open spec fn run_total(k: Seq<(nat, Seq<char>)>) -> nat
    decreases k.len(),
{
    if k.len() == 0 { 0 } else { run_total(k.drop_last()) + k.last().0 }
}

/// The numbers in the fold markers add up to the omitted middle lines:
/// nothing is lost or counted twice.
pub proof fn law_markers_count_omitted_lines(pats: Seq<Seq<char>>, m: Seq<Seq<char>>)
    ensures
        run_total(kept_middle(pats, m)) + omitted_run(pats, m) + kept_middle(pats, m).len() == m.len(),
    decreases m.len(),
{
    if m.len() > 0 {
        let p = m.drop_last();
        law_markers_count_omitted_lines(pats, p);
        if line_matches(pats, m.last()) {
            let k = kept_middle(pats, m);
            assert(k == kept_middle(pats, p).push((omitted_run(pats, p), m.last())));
            assert(k.drop_last() == kept_middle(pats, p));
            assert(run_total(k) == run_total(kept_middle(pats, p)) + omitted_run(pats, p));
        }
    }
}

/// The marker line is plain ASCII, well under the line limit.
proof fn lemma_marker_len()
    ensures
        encode_utf8(truncation_marker_text()).len() < 64,
{
    reveal_strlit("... [line truncated at 1048576 bytes]");
    let t = truncation_marker_text();
    assert(is_ascii_chars(t));
    is_ascii_chars_encode_utf8(t);
}

proof fn lemma_chunk_items_bounded(cs: Seq<Seq<u8>>)
    ensures
        forall|i: int| 0 <= i < chunk_items(cs).len() ==> (#[trigger] chunk_items(cs)[i]).0.len() <= LINE_BYTES_MAX + 1,
    decreases cs.len(),
{
    if cs.len() > 0 {
        lemma_chunk_items_bounded(cs.drop_last());
        lemma_marker_len();
        let prev = chunk_items(cs.drop_last());
        let last = chunk_expand(cs.last());
        assert forall|i: int| 0 <= i < chunk_items(cs).len() implies (#[trigger] chunk_items(cs)[i]).0.len()
            <= LINE_BYTES_MAX + 1 by {
            if i < prev.len() {
                assert(chunk_items(cs)[i] == prev[i]);
            } else {
                assert(chunk_items(cs)[i] == last[i - prev.len()]);
            }
        }
    }
}

/// No line reaches the compressed view longer than the limit: every line
/// of a stream, as the compressor takes it, is at most `LINE_BYTES_MAX`
/// bytes and its terminator.
pub proof fn law_lines_are_bounded(s: Seq<u8>)
    ensures
        forall|i: int| 0 <= i < stream_items(s).len() ==> (#[trigger] stream_items(s)[i]).0.len() <= LINE_BYTES_MAX + 1,
{
    lemma_chunk_items_bounded(chunks(s));
    lemma_marker_len();
    let a = chunk_items(chunks(s));
    let b = pending_items(pending(s));
    assert forall|i: int| 0 <= i < stream_items(s).len() implies (#[trigger] stream_items(s)[i]).0.len()
        <= LINE_BYTES_MAX + 1 by {
        if i < a.len() {
            assert(stream_items(s)[i] == a[i]);
        } else {
            assert(stream_items(s)[i] == b[i - a.len()]);
        }
    }
}

/// The statistics account for every line: the kept and the omitted lines
/// add up to all lines, and nothing is omitted unless the output folded.
pub proof fn law_stats_account_for_every_line(s: Seq<u8>, pats: Seq<Seq<char>>, head: nat, tail: nat, threshold: nat)
    requires
        stream_items(s).len() <= usize::MAX,
    ensures
        ({
            let st = compressed_stats(s, pats, head, tail, threshold);
            &&& st.kept_lines + st.omitted_lines == st.total_lines
            &&& st.total_lines == stream_items(s).len()
            &&& !st.collapsed ==> st.omitted_lines == 0
        }),
{
    let items = stream_items(s);
    let n = items.len();
    if n > threshold {
        let t = line_texts(items);
        let h = head_count(t.len(), head);
        let tl = tail_count(t.len(), head, tail);
        lemma_omitted_run_bound(pats, t.subrange(h as int, t.len() - tl));
    }
}

} // verus!
