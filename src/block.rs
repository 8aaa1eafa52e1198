//! The node of the outline tree, and the digest of its text.
use std::collections::HashMap;
use vstd::prelude::*;

use crate::position::{BlockRange, Position};
use crate::statistics::{empty_stats, WordStatistics};

verus! {

/// The block set: blocks keyed by their id.
pub type Blocks = HashMap<usize, Block>;

/// One structural node of the document: a heading and the text it owns.
pub struct Block {
    /// 1-indexed, dense over the set, increasing in document order.
    pub id: usize,
    /// Nesting level reported by the source format, e.g. the heading level.
    pub depth: usize,
    /// Section marker, e.g. `#` for markdown.
    pub marker: String,
    pub title: String,
    /// Text that belongs to this block itself, not to its descendants.
    pub content: Option<String>,
    pub note: Option<String>,
    /// `None` marks a root.
    pub parent_id: Option<usize>,
    /// Span of the marker itself, as the source format reports it.
    pub header_range: BlockRange,
    /// Span owned by this block and all its descendants; `None` until resolved.
    pub block_range: Option<BlockRange>,
    /// Statistics of this block's own content.
    pub self_stats: WordStatistics,
    /// Statistics of this block together with its descendants.
    pub aggregate_stats: WordStatistics,
    /// Leaves the block out of statistics totals, not out of the tree.
    pub exclude: bool,
    pub hash: Option<u64>,
    /// Ids of the children, in document order.
    pub children_ids: Vec<usize>,
}

/// A block as plain mathematical values.
pub struct BlockView {
    pub id: usize,
    pub depth: usize,
    pub marker: Seq<char>,
    pub title: Seq<char>,
    pub content: Option<Seq<char>>,
    pub note: Option<Seq<char>>,
    pub parent_id: Option<usize>,
    pub header_range: BlockRange,
    pub block_range: Option<BlockRange>,
    pub self_stats: WordStatistics,
    pub aggregate_stats: WordStatistics,
    pub exclude: bool,
    pub hash: Option<u64>,
    pub children_ids: Seq<usize>,
}

pub open spec fn opt_str_view(s: Option<String>) -> Option<Seq<char>> {
    match s {
        Some(t) => Some(t@),
        None => None,
    }
}

impl View for Block {
    type V = BlockView;

    open spec fn view(&self) -> BlockView {
        BlockView {
            id: self.id,
            depth: self.depth,
            marker: self.marker@,
            title: self.title@,
            content: opt_str_view(self.content),
            note: opt_str_view(self.note),
            parent_id: self.parent_id,
            header_range: self.header_range,
            block_range: self.block_range,
            self_stats: self.self_stats,
            aggregate_stats: self.aggregate_stats,
            exclude: self.exclude,
            hash: self.hash,
            children_ids: self.children_ids@,
        }
    }
}

pub open spec fn zero_position() -> Position {
    Position { line: 0, column: 0, offset: 0 }
}

/// The block with every field empty or zero.
pub open spec fn default_block() -> BlockView {
    BlockView {
        id: 0,
        depth: 0,
        marker: Seq::empty(),
        title: Seq::empty(),
        content: None,
        note: None,
        parent_id: None,
        header_range: BlockRange { start: zero_position(), end: zero_position() },
        block_range: None,
        self_stats: empty_stats(),
        aggregate_stats: empty_stats(),
        exclude: false,
        hash: None,
        children_ids: Seq::empty(),
    }
}

impl Default for Block {
    fn default() -> (r: Self)
        ensures
            r@ == default_block(),
    {
        let z = Position { line: 0, column: 0, offset: 0 };
        let stats = WordStatistics::default();
        Block {
            id: 0,
            depth: 0,
            marker: String::new(),
            title: String::new(),
            content: None,
            note: None,
            parent_id: None,
            header_range: BlockRange { start: z, end: z },
            block_range: None,
            self_stats: stats,
            aggregate_stats: stats,
            exclude: false,
            hash: None,
            children_ids: Vec::new(),
        }
    }
}

impl Clone for Block {
    fn clone(&self) -> (r: Self)
        ensures
            r@ == self@,
    {
        self.snapshot()
    }
}

pub fn copy_opt_string(s: &Option<String>) -> (r: Option<String>)
    ensures
        opt_str_view(r) == opt_str_view(*s),
{
    match s {
        Some(t) => Some(t.clone()),
        None => None,
    }
}

pub fn copy_ids(v: &Vec<usize>) -> (r: Vec<usize>)
    ensures
        r@ == v@,
{
    let mut r: Vec<usize> = Vec::new();
    for i in 0..v.len()
        invariant
            r@ == v@.take(i as int),
    {
        r.push(v[i]);
        assert(r@ =~= v@.take(i + 1));
    }
    assert(v@.take(v.len() as int) =~= v@);
    r
}

/// The digest of `s`: blake3 over its UTF-8 bytes.
pub uninterp spec fn blake3_of(s: Seq<char>) -> Seq<u8>;

/// Relies on blake3::hash: the 32-byte blake3 digest of the UTF-8 bytes of `text`.
#[verifier::external_body]
fn blake3_digest(text: &str) -> (r: [u8; 32])
    ensures
        r@ == blake3_of(text@),
{
    *blake3::hash(text.as_bytes()).as_bytes()
}

/// The unsigned integer whose little-endian bytes are `b`.
pub open spec fn le_value(b: Seq<u8>) -> nat
    decreases b.len(),
{
    if b.len() == 0 {
        0
    } else {
        b[0] as nat + 256 * le_value(b.drop_first())
    }
}

pub open spec fn pow256(n: nat) -> nat
    decreases n,
{
    if n == 0 {
        1
    } else {
        256 * pow256((n - 1) as nat)
    }
}

/// The 64-bit digest of `s`: the first eight bytes of its blake3 digest, read
/// as a little-endian integer.
pub open spec fn digest_of(s: Seq<char>) -> u64 {
    le_value(blake3_of(s).subrange(0, 8)) as u64
}

proof fn lemma_le_value_bound(b: Seq<u8>)
    ensures
        le_value(b) < pow256(b.len()),
    decreases b.len(),
{
    if b.len() > 0 {
        lemma_le_value_bound(b.drop_first());
        let r = le_value(b.drop_first());
        let p = pow256((b.len() - 1) as nat);
        assert(b[0] as nat + 256 * r < 256 * p) by (nonlinear_arith)
            requires
                r < p,
                b[0] < 256,
        ;
    }
}

/// The 64-bit digest of `text` (see `digest_of`).
pub fn compute_hash(text: &str) -> (r: u64)
    ensures
        r == digest_of(text@),
{
    let bytes = blake3_digest(text);
    let ghost b8 = bytes@.subrange(0, 8);
    let mut acc: u64 = 0;
    let mut i: usize = 8;
    while i > 0
        invariant
            i <= 8,
            bytes@.len() == 32,
            b8 == bytes@.subrange(0, 8),
            acc as nat == le_value(b8.subrange(i as int, 8)),
        decreases i,
    {
        let ghost tail = b8.subrange(i as int, 8);
        let ghost next = b8.subrange(i - 1, 8);
        proof {
            assert(next.drop_first() =~= tail);
            lemma_le_value_bound(tail);
            reveal_with_fuel(pow256, 9);
            let p = pow256(tail.len());
            assert(p <= pow256(7)) by {
                if tail.len() < 7 {
                    assert(pow256(tail.len()) <= pow256(6)) by {
                        reveal_with_fuel(pow256, 8);
                    }
                }
            }
            assert(256 * acc + 255 < 256 * 256 * 256 * 256 * 256 * 256 * 256 * 256) by (nonlinear_arith)
                requires
                    acc < p,
                    p <= 256 * 256 * 256 * 256 * 256 * 256 * 256,
            ;
        }
        acc = acc * 256 + bytes[i - 1] as u64;
        i = i - 1;
    }
    proof {
        assert(b8.subrange(0, 8) =~= b8);
    }
    acc
}

impl Block {
    /// A copy of this block that owns its own strings and ids.
    pub fn snapshot(&self) -> (r: Block)
        ensures
            r@ == self@,
    {
        Block {
            id: self.id,
            depth: self.depth,
            marker: self.marker.clone(),
            title: self.title.clone(),
            content: copy_opt_string(&self.content),
            note: copy_opt_string(&self.note),
            parent_id: self.parent_id,
            header_range: self.header_range,
            block_range: self.block_range,
            self_stats: self.self_stats,
            aggregate_stats: self.aggregate_stats,
            exclude: self.exclude,
            hash: self.hash,
            children_ids: copy_ids(&self.children_ids),
        }
    }

    /// Visit this block, then each child present in `blocks` whose id is
    /// greater than this block's, depth first, in `children_ids` order.
    pub fn accept<V: Visitor>(&self, visitor: &mut V, blocks: &Blocks)
        decreases usize::MAX - self.id,
    {
        visitor.visit_block(self);
        let n = self.children_ids.len();
        for i in 0..n
            invariant
                n == self.children_ids@.len(),
        {
            let child_id = self.children_ids[i];
            match blocks.get(&child_id) {
                Some(child) => {
                    if child.id > self.id {
                        child.accept(visitor, blocks);
                    }
                },
                None => {},
            }
        }
    }

    /// Set the hash to the digest of the title.
    pub fn hash(&mut self)
        ensures
            final(self)@ == (BlockView { hash: Some(digest_of(old(self).title@)), ..old(self)@ }),
    {
        self.hash = Some(compute_hash(&self.title));
    }
}

/// Something that walks the blocks of a tree.
pub trait Visitor {
    fn visit_block(&mut self, block: &Block);
}

} // verus!
