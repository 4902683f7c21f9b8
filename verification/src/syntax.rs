//! Concrete syntax trees: the parser's tree read into plain values.
//!
//! A `SyntaxTree` lists the nodes of a parse tree in pre-order. Each node
//! records its kind, the grammar field it fills in its parent, its flags,
//! its byte and row span, its parent's index, and (in `ends`) the index
//! just past its subtree, so that the children of node `i` are found by
//! starting at `i + 1` and hopping over each child's subtree.
//!
//! What the parser's tree holds is named (`ts_tree_root`, `ts_node`), and
//! `build_syntax_tree` is proved to lay it out exactly (`reads_tree`): node
//! for node, with spans clamped into the source.

use vstd::prelude::*;
use vstd::utf8::*;
use vstd::string::StringSliceAdditionalSpecFns;

verus! {

#[verifier::external_type_specification]
#[verifier::external_body]
pub struct ExTree(tree_sitter::Tree);

#[verifier::external_type_specification]
#[verifier::external_body]
pub struct ExNode<'a>(tree_sitter::Node<'a>);

/// One node of a parse tree as the parser holds it: its kind, flags,
/// byte and row span, and its children in order, each with the grammar
/// field it fills (`None` for none).
pub ghost struct TsView {
    pub kind: Seq<char>,
    pub named: bool,
    pub error: bool,
    pub missing: bool,
    pub start_byte: usize,
    pub end_byte: usize,
    pub start_row: usize,
    pub end_row: usize,
    pub children: Seq<TsView>,
    pub fields: Seq<Option<Seq<char>>>,
}

/// What a parse tree holds: its root node with all that lies below it.
pub uninterp spec fn ts_tree_root(t: tree_sitter::Tree) -> TsView;

/// The text a parse tree was parsed from.
pub uninterp spec fn ts_tree_text(t: tree_sitter::Tree) -> Seq<u8>;

/// What a node of a parse tree holds: the node with its subtree.
pub uninterp spec fn ts_node(n: tree_sitter::Node) -> TsView;

/// `Tree::root_node`: the node that holds the whole tree.
#[verifier::external_body]
pub(crate) fn tree_root_node(t: &tree_sitter::Tree) -> (n: tree_sitter::Node<'_>)
    ensures
        ts_node(n) == ts_tree_root(*t),
{
    t.root_node()
}

/// `Node::child_count`: the number of children, each with one field entry.
#[verifier::external_body]
fn node_child_count(n: &tree_sitter::Node<'_>) -> (r: usize)
    ensures
        r == ts_node(*n).children.len(),
        r == ts_node(*n).fields.len(),
        r <= u32::MAX,
{
    n.child_count() as usize
}

/// `Node::child`: the child at position `i`.
#[verifier::external_body]
fn node_child<'a>(n: &tree_sitter::Node<'a>, i: usize) -> (r: Option<tree_sitter::Node<'a>>)
    requires
        i < ts_node(*n).children.len(),
        i <= u32::MAX,
    ensures
        r is Some,
        r matches Some(c) ==> ts_node(c) == ts_node(*n).children[i as int],
{
    n.child(i as u32)
}

/// `Node::field_name_for_child`: the field the child at position `i` fills.
#[verifier::external_body]
fn node_field_name_for_child(n: &tree_sitter::Node<'_>, i: usize) -> (r: Option<String>)
    requires
        i < ts_node(*n).fields.len(),
        i <= u32::MAX,
    ensures
        opt_str(r) == ts_node(*n).fields[i as int],
{
    n.field_name_for_child(i as u32).map(|s| s.to_string())
}

/// `Node::kind`.
#[verifier::external_body]
fn node_kind(n: &tree_sitter::Node<'_>) -> (k: String)
    ensures
        k@ == ts_node(*n).kind,
{
    n.kind().to_string()
}

/// `Node::is_named`.
#[verifier::external_body]
fn node_is_named(n: &tree_sitter::Node<'_>) -> (b: bool)
    ensures
        b == ts_node(*n).named,
{
    n.is_named()
}

/// `Node::is_error`.
#[verifier::external_body]
fn node_is_error(n: &tree_sitter::Node<'_>) -> (b: bool)
    ensures
        b == ts_node(*n).error,
{
    n.is_error()
}

/// `Node::is_missing`.
#[verifier::external_body]
fn node_is_missing(n: &tree_sitter::Node<'_>) -> (b: bool)
    ensures
        b == ts_node(*n).missing,
{
    n.is_missing()
}

/// `Node::start_byte`.
#[verifier::external_body]
fn node_start_byte(n: &tree_sitter::Node<'_>) -> (b: usize)
    ensures
        b == ts_node(*n).start_byte,
{
    n.start_byte()
}

/// `Node::end_byte`.
#[verifier::external_body]
fn node_end_byte(n: &tree_sitter::Node<'_>) -> (b: usize)
    ensures
        b == ts_node(*n).end_byte,
{
    n.end_byte()
}

/// `Node::start_position`, its row.
#[verifier::external_body]
fn node_start_row(n: &tree_sitter::Node<'_>) -> (r: usize)
    ensures
        r == ts_node(*n).start_row,
{
    n.start_position().row
}

/// `Node::end_position`, its row: the start row plus the rows the node
/// spans, so never before the start row.
#[verifier::external_body]
fn node_end_row(n: &tree_sitter::Node<'_>) -> (r: usize)
    ensures
        r == ts_node(*n).end_row,
        r >= ts_node(*n).start_row,
{
    n.end_position().row
}

/// `std::str::from_utf8`, owned: `Ok` exactly when `bytes` is valid
/// UTF-8, and then the string whose encoding is `bytes`; else the error's
/// message.
#[verifier::external_body]
pub(crate) fn utf8_string(bytes: &[u8]) -> (r: Result<String, String>)
    ensures
        r.is_ok() == valid_utf8(bytes@),
        r matches Ok(s) ==> encode_utf8(s@) == bytes@,
{
    match std::str::from_utf8(bytes) {
        Ok(s) => Ok(s.to_string()),
        Err(e) => Err(e.to_string()),
    }
}

/// One node of a `SyntaxTree`.
pub struct SyntaxNode {
    pub kind: String,
    /// The grammar field this node fills in its parent.
    pub field: Option<String>,
    pub named: bool,
    pub error: bool,
    pub missing: bool,
    pub start_byte: usize,
    pub end_byte: usize,
    /// 0-based row of the first byte.
    pub start_row: usize,
    /// 0-based row of the end position.
    pub end_row: usize,
    pub parent: Option<usize>,
}

/// A parse tree in pre-order; `ends[i]` is the index just past the subtree
/// of node `i`.
pub struct SyntaxTree {
    pub nodes: Vec<SyntaxNode>,
    pub ends: Vec<usize>,
}

impl SyntaxTree {
    pub open spec fn len(&self) -> nat {
        self.nodes@.len()
    }

    pub open spec fn node(&self, i: usize) -> SyntaxNode {
        self.nodes@[i as int]
    }

    pub open spec fn end(&self, i: usize) -> usize {
        self.ends@[i as int]
    }

    /// Well-formed over a source of `src_len` bytes: a root, subtrees that
    /// are non-empty and stay inside the tree, parents that come first, and
    /// byte spans inside the source.
    pub open spec fn wf(&self, src_len: nat) -> bool {
        &&& 1 <= self.nodes@.len() <= usize::MAX
        &&& self.ends@.len() == self.nodes@.len()
        &&& forall|i: int| 0 <= i < self.nodes@.len() ==> i < #[trigger] self.ends@[i] <= self.nodes@.len()
        &&& forall|i: int|
            0 <= i < self.nodes@.len() ==> ((#[trigger] self.nodes@[i]).parent matches Some(p) ==> p
                < i) && self.nodes@[i].start_byte <= self.nodes@[i].end_byte <= src_len
                && self.nodes@[i].start_row <= self.nodes@[i].end_row <= src_len
    }

    /// Position `j` holds a child of `i` (hopping from child to child).
    pub open spec fn child_at(&self, i: usize, j: usize) -> bool {
        j < self.end(i) && j < self.len() && self.end(j) > j && self.end(j) <= self.end(i)
    }

    /// The children of node `i`, from position `j` on.
    pub open spec fn children_from(&self, i: usize, j: usize) -> Seq<usize>
        decreases self.end(i) - j,
    {
        if !self.child_at(i, j) {
            seq![]
        } else {
            seq![j] + self.children_from(i, self.end(j))
        }
    }

    /// The children of node `i`, in order.
    pub open spec fn children(&self, i: usize) -> Seq<usize> {
        if i < usize::MAX {
            self.children_from(i, (i + 1) as usize)
        } else {
            seq![]
        }
    }

    /// The named children of node `i`, from position `j` on.
    pub open spec fn named_from(&self, i: usize, j: usize) -> Seq<usize>
        decreases self.end(i) - j,
    {
        if !self.child_at(i, j) {
            seq![]
        } else if self.node(j).named {
            seq![j] + self.named_from(i, self.end(j))
        } else {
            self.named_from(i, self.end(j))
        }
    }

    /// The named children of `i`.
    pub open spec fn named_children(&self, i: usize) -> Seq<usize> {
        if i < usize::MAX {
            self.named_from(i, (i + 1) as usize)
        } else {
            seq![]
        }
    }

    /// The `k`-th named child of `i`.
    pub open spec fn named_child(&self, i: usize, k: int) -> Option<usize> {
        if 0 <= k < self.named_children(i).len() {
            Some(self.named_children(i)[k])
        } else {
            None
        }
    }

    /// Node `j` fills the field `name`.
    pub open spec fn has_field(&self, j: usize, name: Seq<char>) -> bool {
        self.node(j).field matches Some(f) && f@ == name
    }

    /// The first child of `i`, from position `j` on, filling field `name`.
    pub open spec fn field_from(&self, i: usize, j: usize, name: Seq<char>) -> Option<usize>
        decreases self.end(i) - j,
    {
        if !self.child_at(i, j) {
            None
        } else if self.has_field(j, name) {
            Some(j)
        } else {
            self.field_from(i, self.end(j), name)
        }
    }

    /// `child_by_field_name`: the first child of `i` filling field `name`.
    pub open spec fn field_child(&self, i: usize, name: Seq<char>) -> Option<usize> {
        if i < usize::MAX {
            self.field_from(i, (i + 1) as usize, name)
        } else {
            None
        }
    }

    /// Walking the children of `p` from `j`, with `prev` just before: the
    /// child before `i`.
    pub open spec fn prev_from(&self, i: usize, p: usize, j: usize, prev: Option<usize>) -> Option<
        usize,
    >
        decreases self.end(p) - j,
    {
        if !self.child_at(p, j) {
            None
        } else if j == i {
            prev
        } else {
            self.prev_from(i, p, self.end(j), Some(j))
        }
    }

    /// The sibling just before `i` among its parent's children.
    pub open spec fn prev_sibling(&self, i: usize) -> Option<usize> {
        match self.node(i).parent {
            Some(p) => if p < usize::MAX {
                self.prev_from(i, p, (p + 1) as usize, None)
            } else {
                None
            },
            None => None,
        }
    }

    /// The kind of node `i` is `k`.
    pub open spec fn kind_is(&self, i: usize, k: Seq<char>) -> bool {
        self.node(i).kind@ == k
    }

    /// The text of node `i` in `bytes`.
    pub open spec fn text(&self, bytes: Seq<u8>, i: usize) -> Option<Seq<char>> {
        span_text(bytes, self.node(i).start_byte as int, self.node(i).end_byte as int)
    }

    /// The node's kind is `k`.
    pub fn kind_eq(&self, i: usize, k: &str) -> (r: bool)
        requires
            i < self.len(),
        ensures
            r == self.kind_is(i, k@),
    {
        str_eq(self.nodes[i].kind.as_str(), k)
    }

    /// Node `j` fills the field `name`.
    pub fn in_field(&self, j: usize, name: &str) -> (r: bool)
        requires
            j < self.len(),
        ensures
            r == self.has_field(j, name@),
    {
        match &self.nodes[j].field {
            Some(f) => str_eq(f.as_str(), name),
            None => false,
        }
    }

    pub(crate) fn step_ok(&self, i: usize, j: usize) -> (r: bool)
        requires
            i < self.len(),
            self.ends@.len() == self.nodes@.len(),
        ensures
            r == self.child_at(i, j),
    {
        let end_i = self.ends[i];
        j < end_i && j < self.nodes.len() && self.ends[j] > j && self.ends[j] <= end_i
    }

    /// `child_by_field_name`: the first child of `i` filling field `name`.
    pub fn child_by_field_name(&self, i: usize, name: &str) -> (r: Option<usize>)
        requires
            i < self.len(),
            self.ends@.len() == self.nodes@.len(),
        ensures
            r == self.field_child(i, name@),
            r matches Some(c) ==> c < self.len(),
    {
        if i == usize::MAX {
            return None;
        }
        let mut j = i + 1;
        loop
            invariant
                i < self.len(),
                self.ends@.len() == self.nodes@.len(),
                self.field_child(i, name@) == self.field_from(i, j, name@),
            decreases self.end(i) - j,
        {
            if !self.step_ok(i, j) {
                return None;
            }
            if self.in_field(j, name) {
                return Some(j);
            }
            j = self.ends[j];
        }
    }

    /// The `k`-th named child of `i`.
    pub fn named_child_at(&self, i: usize, k: usize) -> (r: Option<usize>)
        requires
            i < self.len(),
            self.ends@.len() == self.nodes@.len(),
        ensures
            r == self.named_child(i, k as int),
            r matches Some(c) ==> c < self.len(),
    {
        if i == usize::MAX {
            return None;
        }
        let mut j = i + 1;
        let mut count: usize = 0;
        let ghost mut pre: Seq<usize> = seq![];
        loop
            invariant
                i < self.len(),
                self.ends@.len() == self.nodes@.len(),
                count == pre.len(),
                count <= k,
                self.named_children(i) == pre + self.named_from(i, j),
            decreases self.end(i) - j,
        {
            if !self.step_ok(i, j) {
                assert(self.named_children(i) == pre);
                return None;
            }
            if self.nodes[j].named {
                assert(self.named_children(i)[count as int] == j);
                if count == k {
                    return Some(j);
                }
                proof {
                    assert(pre + self.named_from(i, j) == pre.push(j) + self.named_from(
                        i,
                        self.end(j),
                    ));
                    pre = pre.push(j);
                }
                count += 1;
            }
            j = self.ends[j];
        }
    }

    /// The sibling just before `i` among its parent's children.
    pub fn prev_sibling_of(&self, i: usize) -> (r: Option<usize>)
        requires
            i < self.len(),
            self.ends@.len() == self.nodes@.len(),
            self.node(i).parent matches Some(p) ==> p < self.len(),
        ensures
            r == self.prev_sibling(i),
            r matches Some(c) ==> c < self.len(),
    {
        let p = match self.nodes[i].parent {
            Some(p) => p,
            None => return None,
        };
        if p == usize::MAX {
            return None;
        }
        let mut j = p + 1;
        let mut prev: Option<usize> = None;
        loop
            invariant
                p < self.len(),
                self.ends@.len() == self.nodes@.len(),
                self.prev_sibling(i) == self.prev_from(i, p, j, prev),
                prev matches Some(c) ==> c < self.len(),
            decreases self.end(p) - j,
        {
            if !self.step_ok(p, j) {
                return None;
            }
            if j == i {
                return prev;
            }
            prev = Some(j);
            j = self.ends[j];
        }
    }

    /// The text of node `i`, when its bytes are valid UTF-8.
    pub fn node_text(&self, bytes: &[u8], i: usize) -> (r: Option<String>)
        requires
            i < self.len(),
            self.node(i).start_byte <= self.node(i).end_byte <= bytes@.len(),
        ensures
            r.is_some() == self.text(bytes@, i).is_some(),
            r matches Some(s) ==> self.text(bytes@, i) == Some(s@),
    {
        let v = crate::bytes::copy_bytes(bytes, self.nodes[i].start_byte, self.nodes[i].end_byte);
        match utf8_string(v.as_slice()) {
            Ok(s) => {
                proof {
                    encode_utf8_decode_utf8(s@);
                }
                Some(s)
            },
            Err(_) => None,
        }
    }
}

/// The text of `bytes[start..end]`, when those bytes are valid UTF-8.
pub open spec fn span_text(bytes: Seq<u8>, start: int, end: int) -> Option<Seq<char>> {
    if valid_utf8(bytes.subrange(start, end)) {
        Some(decode_utf8(bytes.subrange(start, end)))
    } else {
        None
    }
}

/// Byte-wise equality of two strings decides equality of their characters.
pub fn str_eq(a: &str, b: &str) -> (r: bool)
    ensures
        r == (a@ == b@),
{
    let x = a.as_bytes();
    let y = b.as_bytes();
    proof {
        encode_utf8_decode_utf8(a@);
        encode_utf8_decode_utf8(b@);
    }
    if x.len() != y.len() {
        return false;
    }
    let mut i: usize = 0;
    while i < x.len()
        invariant
            x@ == a.spec_bytes(),
            y@ == b.spec_bytes(),
            x@.len() == y@.len(),
            i <= x@.len(),
            forall|k: int| 0 <= k < i ==> x@[k] == y@[k],
        decreases x@.len() - i,
    {
        if x[i] != y[i] {
            return false;
        }
        i += 1;
    }
    assert(x@ == y@);
    true
}

/// The view of an optional string.
pub open spec fn opt_str(o: Option<String>) -> Option<Seq<char>> {
    match o {
        Some(x) => Some(x@),
        None => None,
    }
}

/// One node of a parse tree laid out in pre-order: what the node holds, the
/// field it fills, its parent's position, and the position just past its
/// subtree.
pub ghost struct FlatNode {
    pub kind: Seq<char>,
    pub field: Option<Seq<char>>,
    pub named: bool,
    pub error: bool,
    pub missing: bool,
    pub start_byte: usize,
    pub end_byte: usize,
    pub start_row: usize,
    pub end_row: usize,
    pub parent: Option<nat>,
    pub end: nat,
}

/// The field entry for child `k`, if there is one.
pub open spec fn field_at(fs: Seq<Option<Seq<char>>>, k: int) -> Option<Seq<char>> {
    if 0 <= k < fs.len() {
        fs[k]
    } else {
        None
    }
}

/// The subtree of `v` laid out in pre-order from position `base`, `v`
/// filling `field` under the node at `parent`.
pub open spec fn flat(v: TsView, field: Option<Seq<char>>, parent: Option<nat>, base: nat) -> Seq<FlatNode>
    decreases v, 0int,
{
    let kids = flat_kids(v.children, v.fields, base, 0, base + 1);
    seq![
        FlatNode {
            kind: v.kind,
            field,
            named: v.named,
            error: v.error,
            missing: v.missing,
            start_byte: v.start_byte,
            end_byte: v.end_byte,
            start_row: v.start_row,
            end_row: v.end_row,
            parent,
            end: base + 1 + kids.len(),
        },
    ] + kids
}

/// The subtrees of children `k..` of the node at `p`, laid out from `at`.
pub open spec fn flat_kids(cs: Seq<TsView>, fs: Seq<Option<Seq<char>>>, p: nat, k: nat, at: nat) -> Seq<
    FlatNode,
>
    decreases cs, cs.len() - k,
{
    if k >= cs.len() {
        seq![]
    } else {
        let f = flat(cs[k as int], field_at(fs, k as int), Some(p), at);
        f + flat_kids(cs, fs, p, k + 1, at + f.len())
    }
}

/// The parent position is within `lo..hi`.
pub open spec fn parent_in(o: Option<nat>, lo: nat, hi: int) -> bool {
    match o {
        Some(q) => lo <= q < hi,
        None => false,
    }
}

/// Positions in a pre-order layout from `base`: each subtree ends after its
/// node and inside the layout, and each parent comes first, at or after
/// `lo` unless it is `outer`.
pub open spec fn laid_out(f: Seq<FlatNode>, base: nat, outer: Option<nat>, lo: nat) -> bool {
    forall|i: int|
        0 <= i < f.len() ==> base + i < (#[trigger] f[i]).end <= base + f.len() && (f[i].parent
            == outer || parent_in(f[i].parent, lo, base + i))
}

proof fn lemma_flat(v: TsView, field: Option<Seq<char>>, parent: Option<nat>, base: nat)
    ensures
        ({
            let f = flat(v, field, parent, base);
            &&& f.len() >= 1
            &&& f[0].parent == parent
            &&& f[0].end == base + f.len()
            &&& forall|i: int| 1 <= i < f.len() ==> parent_in((#[trigger] f[i]).parent, base, base + i)
            &&& forall|i: int| 0 <= i < f.len() ==> base + i < (#[trigger] f[i]).end <= base + f.len()
        }),
    decreases v, 0int,
{
    let kids = flat_kids(v.children, v.fields, base, 0, base + 1);
    lemma_flat_kids(v.children, v.fields, base, 0, base + 1);
    let f = flat(v, field, parent, base);
    assert forall|i: int| 1 <= i < f.len() implies parent_in((#[trigger] f[i]).parent, base, base + i) by {
        assert(f[i] == kids[i - 1]);
    }
    assert forall|i: int| 0 <= i < f.len() implies base + i < (#[trigger] f[i]).end <= base + f.len() by {
        if i > 0 {
            assert(f[i] == kids[i - 1]);
        }
    }
}

proof fn lemma_flat_kids(cs: Seq<TsView>, fs: Seq<Option<Seq<char>>>, p: nat, k: nat, at: nat)
    requires
        p < at,
    ensures
        laid_out(flat_kids(cs, fs, p, k, at), at, Some(p), at),
    decreases cs, cs.len() - k,
{
    if k < cs.len() {
        let f = flat(cs[k as int], field_at(fs, k as int), Some(p), at);
        let rest = flat_kids(cs, fs, p, k + 1, at + f.len());
        lemma_flat(cs[k as int], field_at(fs, k as int), Some(p), at);
        lemma_flat_kids(cs, fs, p, k + 1, at + f.len());
        let all = flat_kids(cs, fs, p, k, at);
        assert(all == f + rest);
        assert forall|i: int| 0 <= i < all.len() implies at + i < (#[trigger] all[i]).end <= at + all.len()
            && (all[i].parent == Some(p) || parent_in(all[i].parent, at, at + i)) by {
            if i < f.len() {
                assert(all[i] == f[i]);
            } else {
                assert(all[i] == rest[i - f.len()]);
            }
        }
    }
}

/// `x` clamped to at most `hi`.
pub open spec fn clamp(x: usize, hi: nat) -> usize {
    if x < hi {
        x
    } else {
        hi as usize
    }
}

/// The node reading `n` holds the laid-out node `e` of a source of
/// `src_len` bytes: spans are clamped into the source, the end not before
/// the start.
pub open spec fn reads_node(n: SyntaxNode, e: FlatNode, src_len: nat) -> bool {
    let s = clamp(e.start_byte, src_len);
    &&& n.kind@ == e.kind
    &&& opt_str(n.field) == e.field
    &&& n.named == e.named
    &&& n.error == e.error
    &&& n.missing == e.missing
    &&& n.start_byte == s
    &&& n.end_byte == (if e.end_byte < s { s } else { clamp(e.end_byte, src_len) })
    &&& n.start_row == clamp(e.start_row, src_len)
    &&& n.end_row == clamp(e.end_row, src_len)
    &&& match n.parent {
        Some(q) => e.parent == Some(q as nat),
        None => e.parent is None,
    }
}

/// `t` is the reading of the tree whose root holds `v`, over a source of
/// `src_len` bytes: node for node in pre-order, with the same subtrees.
pub open spec fn reads_tree(t: &SyntaxTree, v: TsView, src_len: nat) -> bool {
    let f = flat(v, None, None, 0);
    &&& t.nodes@.len() == f.len()
    &&& t.ends@.len() == f.len()
    &&& forall|i: int| 0 <= i < f.len() ==> reads_node(#[trigger] t.nodes@[i], f[i], src_len) && t.ends@[i] == f[i].end
}

fn read_node(n: &tree_sitter::Node<'_>, parent: Option<usize>, field: Option<String>, src_len: usize) -> (r: SyntaxNode)
    ensures
        r.parent == parent,
        r.start_byte <= r.end_byte <= src_len,
        r.start_row <= r.end_row <= src_len,
        ({
            let v = ts_node(*n);
            reads_node(
                r,
                FlatNode {
                    kind: v.kind,
                    field: opt_str(field),
                    named: v.named,
                    error: v.error,
                    missing: v.missing,
                    start_byte: v.start_byte,
                    end_byte: v.end_byte,
                    start_row: v.start_row,
                    end_row: v.end_row,
                    parent: match parent {
                        Some(q) => Some(q as nat),
                        None => None,
                    },
                    end: 0,
                },
                src_len as nat,
            )
        }),
{
    let r0 = node_start_row(n);
    let r1 = node_end_row(n);
    let s0 = node_start_byte(n);
    let e0 = node_end_byte(n);
    let s = if s0 < src_len { s0 } else { src_len };
    let e = if e0 < s { s } else if e0 < src_len { e0 } else { src_len };
    SyntaxNode {
        kind: node_kind(n),
        field,
        named: node_is_named(n),
        error: node_is_error(n),
        missing: node_is_missing(n),
        start_byte: s,
        end_byte: e,
        start_row: if r0 < src_len { r0 } else { src_len },
        end_row: if r1 < src_len { r1 } else { src_len },
        parent,
    }
}

/// The parent position as a number.
pub open spec fn opt_nat(o: Option<usize>) -> Option<nat> {
    match o {
        Some(q) => Some(q as nat),
        None => None,
    }
}

/// The laid-out entry of a node holding `v` (its subtree end left open).
pub open spec fn head_of(v: TsView, field: Option<Seq<char>>, parent: Option<nat>) -> FlatNode {
    FlatNode {
        kind: v.kind,
        field,
        named: v.named,
        error: v.error,
        missing: v.missing,
        start_byte: v.start_byte,
        end_byte: v.end_byte,
        start_row: v.start_row,
        end_row: v.end_row,
        parent,
        end: 0,
    }
}

/// The readings `nodes`/`ends` hold the laid-out nodes `done` from
/// position `at` on.
pub open spec fn holds(nodes: Seq<SyntaxNode>, ends: Seq<usize>, at: int, done: Seq<FlatNode>, src_len: nat) -> bool {
    &&& 0 <= at
    &&& at + done.len() <= nodes.len()
    &&& at + done.len() <= ends.len()
    &&& forall|j: int| 0 <= j < done.len() ==> reads_node(#[trigger] nodes[at + j], done[j], src_len)
        && ends[at + j] == done[j].end
}

#[verifier::opaque]
/// The frames of the pre-order walk: frame `d` is at node `pos[d]`, holding
/// `views[d]` with header `heads[d]`; its children before `next[d]` are laid
/// out in `dones[d]`, except that the last of them is still being walked
/// when a frame lies above it.
pub open spec fn frames_ok(
    nodes: Seq<SyntaxNode>,
    ends: Seq<usize>,
    views: Seq<TsView>,
    heads: Seq<FlatNode>,
    dones: Seq<Seq<FlatNode>>,
    pos: Seq<usize>,
    next: Seq<usize>,
    src_len: nat,
) -> bool {
    let n = views.len();
    &&& heads.len() == n && dones.len() == n && pos.len() == n && next.len() == n
    &&& forall|d: int| 0 <= d < n ==> {
        &&& (#[trigger] pos[d]) < nodes.len()
        &&& reads_node(nodes[pos[d] as int], heads[d], src_len)
        &&& heads[d] == head_of(views[d], heads[d].field, heads[d].parent)
        &&& next[d] <= views[d].children.len()
        &&& views[d].fields.len() == views[d].children.len()
        &&& holds(nodes, ends, pos[d] + 1, dones[d], src_len)
    }
    &&& forall|d: int| 0 <= d < n - 1 ==> {
        &&& #[trigger] next[d] >= 1
        &&& views[d + 1] == views[d].children[next[d] - 1]
        &&& pos[d + 1] == pos[d] + 1 + dones[d].len()
        &&& heads[d + 1] == head_of(views[d + 1], field_at(views[d].fields, next[d] - 1), Some(pos[d] as nat))
        &&& flat_kids(views[d].children, views[d].fields, pos[d] as nat, 0, (pos[d] + 1) as nat) == dones[d]
            + flat_kids(views[d].children, views[d].fields, pos[d] as nat, (next[d] - 1) as nat, pos[d + 1] as nat)
    }
    &&& n > 0 ==> {
        &&& pos[n - 1] + 1 + dones[n - 1].len() == nodes.len()
        &&& flat_kids(views[n - 1].children, views[n - 1].fields, pos[n - 1] as nat, 0, (pos[n - 1] + 1) as nat)
            == dones[n - 1] + flat_kids(
            views[n - 1].children,
            views[n - 1].fields,
            pos[n - 1] as nat,
            next[n - 1] as nat,
            nodes.len() as nat,
        )
    }
}

proof fn lemma_flat_head(v: TsView, field: Option<Seq<char>>, parent: Option<nat>, base: nat)
    ensures
        ({
            let f = flat(v, field, parent, base);
            let kids = flat_kids(v.children, v.fields, base, 0, base + 1);
            &&& f == seq![FlatNode { end: base + 1 + kids.len(), ..head_of(v, field, parent) }] + kids
        }),
{
}

/// Readings past `at` are untouched by writes at or after `from`.
proof fn lemma_holds_kept(
    nodes: Seq<SyntaxNode>,
    ends: Seq<usize>,
    nn: Seq<SyntaxNode>,
    ne: Seq<usize>,
    at: int,
    done: Seq<FlatNode>,
    sl: nat,
)
    requires
        holds(nodes, ends, at, done, sl),
        nn.len() >= nodes.len(),
        ne.len() >= ends.len(),
        forall|i: int| 0 <= i < at + done.len() ==> nn[i] == nodes[i] && ne[i] == ends[i],
    ensures
        holds(nn, ne, at, done, sl),
{
    assert forall|j: int| 0 <= j < done.len() implies reads_node(#[trigger] nn[at + j], done[j], sl) && ne[at + j]
        == done[j].end by {
        assert(reads_node(nodes[at + j], done[j], sl));
    }
}

/// A walk step into the next child of the top frame.
proof fn lemma_push(
    on: Seq<SyntaxNode>,
    oe: Seq<usize>,
    views: Seq<TsView>,
    heads: Seq<FlatNode>,
    dones: Seq<Seq<FlatNode>>,
    opos: Seq<usize>,
    onext: Seq<usize>,
    x: SyntaxNode,
    cv: TsView,
    fv: Option<Seq<char>>,
    sl: nat,
)
    requires
        frames_ok(on, oe, views, heads, dones, opos, onext, sl),
        views.len() > 0,
        on.len() == oe.len(),
        onext[views.len() - 1] < views[views.len() - 1].children.len(),
        cv == views[views.len() - 1].children[onext[views.len() - 1] as int],
        fv == field_at(views[views.len() - 1].fields, onext[views.len() - 1] as int),
        cv.fields.len() == cv.children.len(),
        reads_node(x, head_of(cv, fv, Some(opos[views.len() - 1] as nat)), sl),
        on.len() < usize::MAX,
        onext[views.len() - 1] < usize::MAX,
    ensures
        frames_ok(
            on.push(x),
            oe.push((on.len() + 1) as usize),
            views.push(cv),
            heads.push(head_of(cv, fv, Some(opos[views.len() - 1] as nat))),
            dones.push(seq![]),
            opos.push(on.len() as usize),
            onext.update(views.len() - 1, (onext[views.len() - 1] + 1) as usize).push(0),
            sl,
        ),
{
    reveal(frames_ok);
    let t = views.len() - 1;
    let k = onext[t];
    let idx = on.len();
    let nn = on.push(x);
    let ne = oe.push((idx + 1) as usize);
    let nv = views.push(cv);
    let nh = heads.push(head_of(cv, fv, Some(opos[t] as nat)));
    let nd = dones.push(seq![]);
    let np = opos.push(idx as usize);
    let nx = onext.update(t, (k + 1) as usize).push(0);
    let n = nv.len();
    assert forall|d: int| 0 <= d < n implies {
        &&& (#[trigger] np[d]) < nn.len()
        &&& reads_node(nn[np[d] as int], nh[d], sl)
        &&& nh[d] == head_of(nv[d], nh[d].field, nh[d].parent)
        &&& nx[d] <= nv[d].children.len()
        &&& nv[d].fields.len() == nv[d].children.len()
        &&& holds(nn, ne, np[d] + 1, nd[d], sl)
    } by {
        if d < n - 1 {
            assert(np[d] == opos[d]);
            assert(opos[d] < on.len());
            lemma_holds_kept(on, oe, nn, ne, opos[d] + 1, dones[d], sl);
            assert(nn[np[d] as int] == on[opos[d] as int]);
        } else {
            assert(holds(nn, ne, np[d] + 1, nd[d], sl));
        }
    }
    assert forall|d: int| 0 <= d < n - 1 implies {
        &&& #[trigger] nx[d] >= 1
        &&& nv[d + 1] == nv[d].children[nx[d] - 1]
        &&& np[d + 1] == np[d] + 1 + nd[d].len()
        &&& nh[d + 1] == head_of(nv[d + 1], field_at(nv[d].fields, nx[d] - 1), Some(np[d] as nat))
        &&& flat_kids(nv[d].children, nv[d].fields, np[d] as nat, 0, (np[d] + 1) as nat) == nd[d] + flat_kids(
            nv[d].children,
            nv[d].fields,
            np[d] as nat,
            (nx[d] - 1) as nat,
            np[d + 1] as nat,
        )
    } by {
        if d < t {
            assert(nx[d] == onext[d]);
            assert(nx[d] >= 1);
        } else {
            assert(d == t);
            assert(nx[d] == k + 1);
        }
    }
    assert(flat_kids(cv.children, cv.fields, idx, 0, idx + 1) == nd[n - 1] + flat_kids(
        cv.children,
        cv.fields,
        idx,
        0,
        idx + 1,
    ));
}

/// The step that closes the top frame once its children are laid out.
proof fn lemma_pop(
    on: Seq<SyntaxNode>,
    oe: Seq<usize>,
    views: Seq<TsView>,
    heads: Seq<FlatNode>,
    dones: Seq<Seq<FlatNode>>,
    opos: Seq<usize>,
    onext: Seq<usize>,
    sl: nat,
)
    requires
        frames_ok(on, oe, views, heads, dones, opos, onext, sl),
        views.len() > 0,
        on.len() == oe.len(),
        onext[views.len() - 1] >= views[views.len() - 1].children.len(),
        on.len() < usize::MAX,
    ensures
        ({
            let t = views.len() - 1;
            let ne = oe.update(opos[t] as int, on.len() as usize);
            let fl = flat(views[t], heads[t].field, heads[t].parent, opos[t] as nat);
            &&& holds(on, ne, opos[t] as int, fl, sl)
            &&& opos[t] + fl.len() == on.len()
            &&& t > 0 ==> frames_ok(
                on,
                ne,
                views.drop_last(),
                heads.drop_last(),
                dones.drop_last().update(t - 1, dones[t - 1] + fl),
                opos.drop_last(),
                onext.drop_last(),
                sl,
            )
        }),
{
    reveal(frames_ok);
    let t = views.len() - 1;
    let me = opos[t];
    let total = on.len();
    let ne = oe.update(me as int, total as usize);
    let v = views[t];
    let h = heads[t];
    let done = dones[t];
    let k = onext[t];
    assert(k == v.children.len());
    assert(flat_kids(v.children, v.fields, me as nat, k as nat, total as nat) == Seq::<FlatNode>::empty());
    assert(done == flat_kids(v.children, v.fields, me as nat, 0, (me + 1) as nat));
    let fl = flat(v, h.field, h.parent, me as nat);
    lemma_flat_head(v, h.field, h.parent, me as nat);
    assert(fl.len() == 1 + done.len());
    assert(holds(on, oe, me + 1, done, sl));
    assert forall|j: int| 0 <= j < fl.len() implies reads_node(#[trigger] on[me + j], fl[j], sl) && ne[me + j]
        == fl[j].end by {
        if j == 0 {
            assert(fl[0] == FlatNode { end: total as nat, ..h });
            assert(reads_node(on[me as int], h, sl));
        } else {
            assert(fl[j] == done[j - 1]);
            assert(me + j == me + 1 + (j - 1));
            assert(reads_node(on[me + 1 + (j - 1)], done[j - 1], sl));
        }
    }
    if t > 0 {
        let p = t - 1;
        let pv = views[p];
        let kp = onext[p];
        let vs = views.drop_last();
        let hs = heads.drop_last();
        let ps = opos.drop_last();
        let xs = onext.drop_last();
        let nd = dones[p] + fl;
        let ds = dones.drop_last().update(p, nd);
        assert(v == pv.children[kp - 1]);
        assert(flat_kids(pv.children, pv.fields, opos[p] as nat, (kp - 1) as nat, me as nat) == fl + flat_kids(
            pv.children,
            pv.fields,
            opos[p] as nat,
            kp as nat,
            (me + fl.len()) as nat,
        ));
        assert(dones[p] + (fl + flat_kids(pv.children, pv.fields, opos[p] as nat, kp as nat, total as nat)) == nd
            + flat_kids(pv.children, pv.fields, opos[p] as nat, kp as nat, total as nat));
        let n = vs.len();
        assert forall|d: int| 0 <= d < n implies {
            &&& (#[trigger] ps[d]) < on.len()
            &&& reads_node(on[ps[d] as int], hs[d], sl)
            &&& hs[d] == head_of(vs[d], hs[d].field, hs[d].parent)
            &&& xs[d] <= vs[d].children.len()
            &&& vs[d].fields.len() == vs[d].children.len()
            &&& holds(on, ne, ps[d] + 1, ds[d], sl)
        } by {
            assert(ps[d] == opos[d]);
            if d < p {
                assert(ds[d] == dones[d]);
                assert(opos[d] + 1 + dones[d].len() <= opos[d + 1]) by {
                    assert(opos[d + 1] == opos[d] + 1 + dones[d].len());
                }
                lemma_ordered_pos(opos, dones, d, t);
                lemma_holds_kept(on, oe, on, ne, opos[d] + 1, dones[d], sl);
            } else {
                assert(d == p);
                assert(ds[d] == nd);
                assert(holds(on, ne, opos[p] + 1, nd, sl)) by {
                    assert forall|j: int| 0 <= j < nd.len() implies reads_node(
                        #[trigger] on[opos[p] + 1 + j],
                        nd[j],
                        sl,
                    ) && ne[opos[p] + 1 + j] == nd[j].end by {
                        if j < dones[p].len() {
                            assert(nd[j] == dones[p][j]);
                            assert(reads_node(on[opos[p] + 1 + j], dones[p][j], sl));
                            assert(oe[opos[p] + 1 + j] == dones[p][j].end);
                        } else {
                            let i = j - dones[p].len();
                            assert(nd[j] == fl[i]);
                            assert(opos[p] + 1 + j == me + i);
                        }
                    }
                }
            }
        }
        assert forall|d: int| 0 <= d < n - 1 implies {
            &&& #[trigger] xs[d] >= 1
            &&& vs[d + 1] == vs[d].children[xs[d] - 1]
            &&& ps[d + 1] == ps[d] + 1 + ds[d].len()
            &&& hs[d + 1] == head_of(vs[d + 1], field_at(vs[d].fields, xs[d] - 1), Some(ps[d] as nat))
            &&& flat_kids(vs[d].children, vs[d].fields, ps[d] as nat, 0, (ps[d] + 1) as nat) == ds[d] + flat_kids(
                vs[d].children,
                vs[d].fields,
                ps[d] as nat,
                (xs[d] - 1) as nat,
                ps[d + 1] as nat,
            )
        } by {
            assert(xs[d] == onext[d]);
            assert(onext[d] >= 1);
            assert(ds[d] == dones[d]);
        }
    }
}

/// Open frames sit at increasing positions, each past the laid-out part of
/// the one below it.
proof fn lemma_ordered_pos(pos: Seq<usize>, dones: Seq<Seq<FlatNode>>, d: int, t: int)
    requires
        0 <= d < t < pos.len(),
        dones.len() == pos.len(),
        forall|e: int| 0 <= e < pos.len() - 1 ==> #[trigger] pos[e + 1] == pos[e] + 1 + dones[e].len(),
    ensures
        pos[d] + 1 + dones[d].len() <= pos[t],
    decreases t - d,
{
    assert(pos[d + 1] == pos[d] + 1 + dones[d].len());
    if d + 1 < t {
        lemma_ordered_pos(pos, dones, d + 1, t);
    }
}

/// The number of nodes in the tree whose root holds `v`.
pub open spec fn tree_size(v: TsView) -> nat {
    flat(v, None, None, 0).len()
}

/// Where the subtree of open frame `d` ends in the layout.
pub open spec fn frame_span(views: Seq<TsView>, heads: Seq<FlatNode>, pos: Seq<usize>, d: int) -> int {
    pos[d] + flat(views[d], heads[d].field, heads[d].parent, pos[d] as nat).len()
}

proof fn lemma_kids_first(cs: Seq<TsView>, fs: Seq<Option<Seq<char>>>, p: nat, k: nat, at: nat)
    requires
        k < cs.len(),
    ensures
        flat_kids(cs, fs, p, k, at) == flat(cs[k as int], field_at(fs, k as int), Some(p), at) + flat_kids(
            cs,
            fs,
            p,
            k + 1,
            at + flat(cs[k as int], field_at(fs, k as int), Some(p), at).len(),
        ),
        flat_kids(cs, fs, p, k, at).len() >= 1,
{
    lemma_flat(cs[k as int], field_at(fs, k as int), Some(p), at);
}

/// Each open frame's subtree ends within the one below it, and the top
/// frame's ends where the layout so far plus its unread children end.
proof fn lemma_spans(
    nodes: Seq<SyntaxNode>,
    ends: Seq<usize>,
    views: Seq<TsView>,
    heads: Seq<FlatNode>,
    dones: Seq<Seq<FlatNode>>,
    pos: Seq<usize>,
    next: Seq<usize>,
    sl: nat,
)
    requires
        frames_ok(nodes, ends, views, heads, dones, pos, next, sl),
        views.len() > 0,
    ensures
        forall|d: int| 0 <= d < views.len() ==> #[trigger] frame_span(views, heads, pos, d) <= frame_span(
            views,
            heads,
            pos,
            0,
        ),
        nodes.len() + flat_kids(
            views[views.len() - 1].children,
            views[views.len() - 1].fields,
            pos[views.len() - 1] as nat,
            next[views.len() - 1] as nat,
            nodes.len() as nat,
        ).len() == frame_span(views, heads, pos, views.len() - 1),
{
    reveal(frames_ok);
    let n = views.len();
    assert forall|d: int| 0 <= d < n - 1 implies #[trigger] frame_span(views, heads, pos, d + 1) <= frame_span(
        views,
        heads,
        pos,
        d,
    ) by {
        let v = views[d];
        let k = next[d];
        assert(next[d] >= 1);
        lemma_flat_head(v, heads[d].field, heads[d].parent, pos[d] as nat);
        lemma_kids_first(v.children, v.fields, pos[d] as nat, (k - 1) as nat, pos[d + 1] as nat);
    }
    assert forall|d: int| 0 <= d < n implies #[trigger] frame_span(views, heads, pos, d) <= frame_span(
        views,
        heads,
        pos,
        0,
    ) by {
        lemma_span_chain(views, heads, pos, d);
    }
    let t = n - 1;
    lemma_flat_head(views[t], heads[t].field, heads[t].parent, pos[t] as nat);
}

proof fn lemma_span_chain(views: Seq<TsView>, heads: Seq<FlatNode>, pos: Seq<usize>, d: int)
    requires
        0 <= d < views.len(),
        forall|e: int| 0 <= e < views.len() - 1 ==> #[trigger] frame_span(views, heads, pos, e + 1) <= frame_span(
            views,
            heads,
            pos,
            e,
        ),
    ensures
        frame_span(views, heads, pos, d) <= frame_span(views, heads, pos, 0),
    decreases d,
{
    if d > 0 {
        assert(frame_span(views, heads, pos, (d - 1) + 1) <= frame_span(views, heads, pos, d - 1));
        lemma_span_chain(views, heads, pos, d - 1);
    }
}

/// Read a parse tree of a `src_len`-byte source into a `SyntaxTree`, in
/// pre-order, node for node, walking it with an explicit stack so that deep
/// nesting needs no deep native recursion; byte spans are kept inside the
/// source. `None` exactly when the positions would not fit in a `usize`.
#[verifier::rlimit(40)]
pub fn build_syntax_tree(tree: &tree_sitter::Tree, src_len: usize) -> (r: Option<SyntaxTree>)
    ensures
        r matches Some(t) ==> t.wf(src_len as nat) && reads_tree(&t, ts_tree_root(*tree), src_len as nat),
        r is Some <==> tree_size(ts_tree_root(*tree)) < usize::MAX - 1,
{
    let root = tree_root_node(tree);
    let ghost rv = ts_tree_root(*tree);
    let ghost sl = src_len as nat;
    let mut nodes: Vec<SyntaxNode> = Vec::new();
    let mut ends: Vec<usize> = Vec::new();
    nodes.push(read_node(&root, None, None, src_len));
    ends.push(1);
    let mut stack: Vec<tree_sitter::Node> = Vec::new();
    let mut next: Vec<usize> = Vec::new();
    let mut counts: Vec<usize> = Vec::new();
    let mut pos: Vec<usize> = Vec::new();
    let root_count = node_child_count(&root);
    stack.push(root);
    next.push(0);
    counts.push(root_count);
    pos.push(0);
    let ghost mut views: Seq<TsView> = seq![rv];
    let ghost mut heads: Seq<FlatNode> = seq![head_of(rv, None, None)];
    let ghost mut dones: Seq<Seq<FlatNode>> = seq![seq![]];
    let ghost mut result: Seq<FlatNode> = seq![];
    proof {
        reveal(frames_ok);
        assert(opt_str(None) == None::<Seq<char>>);
        assert(opt_nat(None) == None::<nat>);
        assert(flat_kids(rv.children, rv.fields, 0, 0, 1) == seq![] + flat_kids(rv.children, rv.fields, 0, 0, 1));
        assert(holds(nodes@, ends@, 1, seq![], sl));
        assert(frames_ok(nodes@, ends@, views, heads, dones, pos@, next@, sl));
    }
    let ghost total = tree_size(rv);
    proof {
        lemma_spans(nodes@, ends@, views, heads, dones, pos@, next@, sl);
        assert(frame_span(views, heads, pos@, 0) == total);
    }
    while stack.len() > 0
        invariant
            rv == ts_tree_root(*tree),
            sl == src_len as nat,
            nodes@.len() == ends@.len(),
            1 <= nodes@.len() <= usize::MAX - 2,
            nodes@.len() <= total,
            total == tree_size(rv),
            stack@.len() == views.len(),
            frames_ok(nodes@, ends@, views, heads, dones, pos@, next@, sl),
            forall|d: int| 0 <= d < views.len() ==> #[trigger] views[d] == ts_node(stack@[d]),
            forall|d: int| 0 <= d < views.len() ==> #[trigger] counts@[d] == views[d].children.len()
                && views[d].fields.len() == views[d].children.len() && counts@[d] <= u32::MAX,
            counts@.len() == views.len(),
            heads.len() == views.len(),
            dones.len() == views.len(),
            next@.len() == views.len(),
            pos@.len() == views.len(),
            views.len() > 0 ==> views[0] == rv && heads[0] == head_of(rv, None, None) && pos@[0] == 0,
            views.len() == 0 ==> result == flat(rv, None, None, 0) && holds(nodes@, ends@, 0, result, sl)
                && result.len() == nodes@.len(),
            forall|i: int| 0 <= i < nodes@.len() ==> (#[trigger] nodes@[i]).start_byte <= nodes@[i].end_byte
                <= src_len && nodes@[i].start_row <= nodes@[i].end_row <= src_len,
        decreases 2 * (total - nodes@.len()) + stack@.len(),
    {
        let t = stack.len() - 1;
        let k = next[t];
        proof {
            lemma_spans(nodes@, ends@, views, heads, dones, pos@, next@, sl);
            assert(frame_span(views, heads, pos@, 0) == total);
            assert(frame_span(views, heads, pos@, t as int) <= total);
        }
        if k < counts[t] {
            let idx = nodes.len();
            proof {
                lemma_kids_first(
                    views[t as int].children,
                    views[t as int].fields,
                    pos@[t as int] as nat,
                    k as nat,
                    nodes@.len() as nat,
                );
                assert(idx < total);
            }
            if idx >= usize::MAX - 2 {
                return None;
            }
            let me = pos[t];
            let c = match node_child(&stack[t], k) {
                Some(c) => c,
                None => return None,
            };
            let f = node_field_name_for_child(&stack[t], k);
            let ghost cv = ts_node(c);
            let ghost fv = opt_str(f);
            let ghost on = nodes@;
            let ghost oe = ends@;
            let ghost onext = next@;
            let ghost opos = pos@;
            let ghost ocounts = counts@;
            let ghost oviews = views;
            let ghost ostack = stack@;
            nodes.push(read_node(&c, Some(me), f, src_len));
            ends.push(idx + 1);
            let cc = node_child_count(&c);
            next.set(t, k + 1);
            stack.push(c);
            next.push(0);
            counts.push(cc);
            pos.push(idx);
            proof {
                assert(opt_nat(Some(me)) == Some(me as nat));
                assert(opt_nat(Some(me)) == Some(opos[t as int] as nat));
                assert(reads_node(nodes@[idx as int], head_of(cv, fv, Some(opos[t as int] as nat)), sl));
                lemma_push(on, oe, views, heads, dones, opos, onext, nodes@[idx as int], cv, fv, sl);
                views = views.push(cv);
                heads = heads.push(head_of(cv, fv, Some(me as nat)));
                dones = dones.push(seq![]);
                assert(nodes@ == on.push(nodes@[idx as int]));
                assert(next@ == onext.update(t as int, (k + 1) as usize).push(0));
                assert forall|d: int| 0 <= d < views.len() implies #[trigger] views[d] == ts_node(stack@[d]) by {
                }
                assert(counts@ == ocounts.push(cc));
                assert(stack@ == ostack.push(c));
                assert forall|d: int| 0 <= d < views.len() implies #[trigger] counts@[d] == views[d].children.len()
                    && views[d].fields.len() == views[d].children.len() && counts@[d] <= u32::MAX by {
                    if d < oviews.len() {
                        assert(counts@[d] == ocounts[d]);
                        assert(views[d] == oviews[d]);
                    } else {
                        assert(counts@[d] == cc);
                        assert(views[d] == cv);
                    }
                }
                assert(ends@ == oe.push((on.len() + 1) as usize));
                assert(pos@ == opos.push(on.len() as usize));
                assert(opos[t as int] == me);
            }
        } else {
            let me = pos[t];
            let total = nodes.len();
            assert(me < nodes@.len() && k >= views[t as int].children.len()) by {
                reveal(frames_ok);
            }
            let ghost oe = ends@;
            let ghost onext = next@;
            let ghost opos = pos@;
            ends.set(me, total);
            stack.pop();
            next.pop();
            counts.pop();
            pos.pop();
            proof {
                lemma_pop(nodes@, oe, views, heads, dones, opos, onext, sl);
                let fl = flat(views[t as int], heads[t as int].field, heads[t as int].parent, me as nat);
                if t == 0 {
                    assert(heads[0] == head_of(rv, None, None));
                    assert(fl == flat(rv, None, None, 0));
                    result = fl;
                    views = views.drop_last();
                    heads = heads.drop_last();
                    dones = dones.drop_last();
                    assert(frames_ok(nodes@, ends@, views, heads, dones, pos@, next@, sl)) by {
                        reveal(frames_ok);
                    }
                } else {
                    dones = dones.drop_last().update(t - 1, dones[t - 1] + fl);
                    views = views.drop_last();
                    heads = heads.drop_last();
                }
            }
        }
    }
    assert(views.len() == 0);
    assert(holds(nodes@, ends@, 0, result, sl));
    let t = SyntaxTree { nodes, ends };
    proof {
        let f = flat(rv, None, None, 0);
        assert(f == result);
        assert(t.nodes@ == nodes@ && t.ends@ == ends@);
        lemma_flat(rv, None, None, 0);
        assert forall|i: int| 0 <= i < t.nodes@.len() implies i < #[trigger] t.ends@[i] <= t.nodes@.len() by {
            assert(reads_node(t.nodes@[0 + i], f[i], sl));
        }
        assert forall|i: int| 0 <= i < t.nodes@.len() implies ((#[trigger] t.nodes@[i]).parent matches Some(p)
            ==> p < i) && t.nodes@[i].start_byte <= t.nodes@[i].end_byte <= src_len
            && t.nodes@[i].start_row <= t.nodes@[i].end_row <= src_len by {
            assert(reads_node(t.nodes@[0 + i], f[i], sl));
            if i == 0 {
                assert(f[0].parent is None);
            }
        }
        assert forall|i: int| 0 <= i < f.len() implies reads_node(#[trigger] t.nodes@[i], f[i], sl)
            && t.ends@[i] == f[i].end by {
            assert(t.nodes@[0 + i] == t.nodes@[i]);
        }
        assert(reads_tree(&t, rv, sl));
        assert(t.wf(sl));
    }
    Some(t)
}

/// Two readings of trees that hold the same nodes agree node for node:
/// the same kinds, fields, flags, spans, parents and subtrees. The reading
/// is a function of what the parser's tree holds.
pub proof fn law_reading_is_determined_by_the_tree(t1: &SyntaxTree, t2: &SyntaxTree, v: TsView, src_len: nat)
    requires
        reads_tree(t1, v, src_len),
        reads_tree(t2, v, src_len),
    ensures
        t1.nodes@.len() == t2.nodes@.len(),
        t1.ends@ == t2.ends@,
        forall|i: int| 0 <= i < t1.nodes@.len() ==> {
            let a = #[trigger] t1.nodes@[i];
            let b = t2.nodes@[i];
            &&& a.kind@ == b.kind@
            &&& opt_str(a.field) == opt_str(b.field)
            &&& a.named == b.named && a.error == b.error && a.missing == b.missing
            &&& a.start_byte == b.start_byte && a.end_byte == b.end_byte
            &&& a.start_row == b.start_row && a.end_row == b.end_row
            &&& a.parent == b.parent
        },
{
    let f = flat(v, None, None, 0);
    assert forall|i: int| 0 <= i < t1.nodes@.len() implies {
        let a = #[trigger] t1.nodes@[i];
        let b = t2.nodes@[i];
        &&& a.kind@ == b.kind@
        &&& opt_str(a.field) == opt_str(b.field)
        &&& a.named == b.named && a.error == b.error && a.missing == b.missing
        &&& a.start_byte == b.start_byte && a.end_byte == b.end_byte
        &&& a.start_row == b.start_row && a.end_row == b.end_row
        &&& a.parent == b.parent
    } by {
        assert(reads_node(t1.nodes@[i], f[i], src_len));
        assert(reads_node(t2.nodes@[i], f[i], src_len));
    }
    assert(t1.ends@ =~= t2.ends@) by {
        assert forall|i: int| 0 <= i < t1.ends@.len() implies t1.ends@[i] == t2.ends@[i] by {
            assert(reads_node(t1.nodes@[i], f[i], src_len));
            assert(reads_node(t2.nodes@[i], f[i], src_len));
        }
    }
}

} // verus!
