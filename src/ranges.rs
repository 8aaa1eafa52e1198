//! The range resolver: the span of text that each block owns.
use vstd::prelude::*;
use vstd::string::StringSliceAdditionalSpecFns;
use vstd::utf8::*;

use crate::block::{Block, Blocks};
use crate::position::{end_position_of, prior_position_of, BlockRange, PositionUtils, TextUtils};
use crate::tree::{
    block_at, boundary_result, first_at_most, is_boundary, sorted_keys,
    strictly_ascending, BlockUtils,
};

verus! {

broadcast use {vstd::std_specs::hash::group_hash_axioms, vstd::seq_lib::group_seq_properties};

/// The boundary block of block `id` at depth `d`, if there is one.
pub open spec fn boundary_of(m: Map<usize, Block>, id: usize, d: usize) -> Option<usize> {
    if exists|b: usize| is_boundary(m, id, d, b) {
        Some(choose|b: usize| is_boundary(m, id, d, b))
    } else {
        None
    }
}

/// A boundary block, when there is one, is the one `boundary_of` names.
pub proof fn lemma_boundary_unique(m: Map<usize, Block>, id: usize, d: usize, r: Option<usize>)
    requires
        boundary_result(m, id, d, r),
    ensures
        r == boundary_of(m, id, d),
{
    match r {
        Some(b) => {
            let c = choose|c: usize| is_boundary(m, id, d, c);
            assert(is_boundary(m, id, d, c));
            if c < b {
                assert(m.contains_key(c) && id < c < b);
            } else if b < c {
                assert(m.contains_key(b) && id < b < c);
            }
        },
        None => {
            if exists|b: usize| is_boundary(m, id, d, b) {
                let c = choose|c: usize| is_boundary(m, id, d, c);
                assert(m.contains_key(c) && id < c);
            }
        },
    }
}

/// The range that block `k` owns in the text whose bytes are `bytes`: from
/// the start of its header to the position just before its boundary block's
/// header, or to the end of the text when it has no boundary block.
pub open spec fn resolved_range(m: Map<usize, Block>, bytes: Seq<u8>, k: usize) -> BlockRange {
    BlockRange {
        start: m[k].header_range.start,
        end: match boundary_of(m, k, m[k].depth) {
            Some(b) => prior_position_of(bytes, m[b].header_range.start),
            None => end_position_of(bytes),
        },
    }
}

/// Block `k` after the resolver: its range is resolved unless it was set already.
pub open spec fn with_resolved_range(m: Map<usize, Block>, bytes: Seq<u8>, k: usize) -> Block {
    if m[k].block_range is Some {
        m[k]
    } else {
        Block { block_range: Some(resolved_range(m, bytes, k)), ..m[k] }
    }
}

/// Every header of `m` starts at a char boundary of the text.
pub open spec fn headers_in_text(m: Map<usize, Block>, bytes: Seq<u8>) -> bool {
    forall|k: usize|
        #[trigger] m.contains_key(k) ==> m[k].header_range.start.offset <= bytes.len()
            && is_char_boundary(bytes, m[k].header_range.start.offset as int)
}

impl BlockUtils {
    /// Resolve `block_range` of every block that has none, from the ids and
    /// depths of the set alone (see `resolved_range`); ranges already set are
    /// left as they are.
    pub fn populate_block_ranges(blocks: &mut Blocks, text: &str)
        requires
            headers_in_text(old(blocks)@, text.spec_bytes()),
        ensures
            final(blocks)@.dom() == old(blocks)@.dom(),
            forall|k: usize| #[trigger]
                final(blocks)@.contains_key(k) ==> final(blocks)@[k] == with_resolved_range(
                    old(blocks)@,
                    text.spec_bytes(),
                    k,
                ),
    {
        let ghost m0 = blocks@;
        let ghost bytes = text.spec_bytes();
        let keys = sorted_keys(blocks);
        let end_position = TextUtils::get_end_position(text);
        let mut ranges: Vec<BlockRange> = Vec::new();
        for i in 0..keys.len()
            invariant
                blocks@ == m0,
                bytes == text.spec_bytes(),
                end_position == end_position_of(bytes),
                headers_in_text(m0, bytes),
                strictly_ascending(keys@),
                forall|k: usize| #[trigger] keys@.contains(k) <==> m0.contains_key(k),
                ranges@.len() == i,
                forall|q: int| 0 <= q < i ==> #[trigger] ranges@[q] == resolved_range(m0, bytes, keys@[q]),
        {
            let k = keys[i];
            assert(keys@.contains(k));
            let block = block_at(blocks, k);
            let boundary = first_at_most(blocks, &keys, i + 1, k, block.depth);
            proof {
                lemma_boundary_unique(m0, k, block.depth, boundary);
            }
            let end = match boundary {
                Some(b) => {
                    let next = block_at(blocks, b);
                    PositionUtils::get_immediate_prior_position(text, &next.header_range.start)
                },
                None => end_position,
            };
            ranges.push(BlockRange { start: block.header_range.start, end });
        }
        for i in 0..keys.len()
            invariant
                bytes == text.spec_bytes(),
                strictly_ascending(keys@),
                forall|k: usize| #[trigger] keys@.contains(k) <==> m0.contains_key(k),
                ranges@.len() == keys@.len(),
                forall|q: int| 0 <= q < keys@.len() ==> #[trigger] ranges@[q] == resolved_range(m0, bytes, keys@[q]),
                blocks@.dom() == m0.dom(),
                forall|k: usize| #[trigger]
                    blocks@.contains_key(k) ==> blocks@[k] == if keys@.take(i as int).contains(k) {
                        with_resolved_range(m0, bytes, k)
                    } else {
                        m0[k]
                    },
        {
            let k = keys[i];
            assert(keys@.contains(k));
            assert(keys@.take(i + 1) =~= keys@.take(i as int).push(k));
            assert(!keys@.take(i as int).contains(k)) by {
                if keys@.take(i as int).contains(k) {
                    let q = keys@.take(i as int).index_of(k);
                    assert(keys@[q] < keys@[i as int]);
                }
            }
            let ghost before = blocks@;
            let mut block = blocks.remove(&k).unwrap();
            if block.block_range.is_none() {
                block.block_range = Some(ranges[i]);
            }
            blocks.insert(k, block);
            assert(blocks@ == before.insert(k, with_resolved_range(m0, bytes, k)));
        }
        proof {
            assert(keys@.take(keys@.len() as int) =~= keys@);
        }
    }
}

} // verus!

verus! {

/// The block set after the range resolver.
pub open spec fn resolve_all(m: Map<usize, Block>, bytes: Seq<u8>) -> Map<usize, Block> {
    Map::new(|k: usize| m.contains_key(k), |k: usize| with_resolved_range(m, bytes, k))
}

} // verus!
