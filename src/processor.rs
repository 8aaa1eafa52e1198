//! Content digests and word counts per block, and their roll-up through the tree.
use vstd::prelude::*;

use crate::block::{compute_hash, digest_of, Block, Blocks};
use crate::statistics::{counted, WordCount, WordStatistics};
use crate::tree::{block_at, sorted_keys, strictly_ascending, BlockUtils};

verus! {

broadcast use {vstd::std_specs::hash::group_hash_axioms, vstd::seq_lib::group_seq_properties};

/// A block after the content stage: with content present, an unset hash
/// becomes the digest of the content, and a zero word count becomes the
/// count of the content. Blocks without content stay as they are.
pub open spec fn processed_block(b: Block) -> Block {
    match b.content {
        None => b,
        Some(c) => Block {
            hash: if b.hash is None {
                Some(digest_of(c@))
            } else {
                b.hash
            },
            self_stats: if b.self_stats.count.words == 0 {
                WordStatistics { count: counted(c@), ..b.self_stats }
            } else {
                b.self_stats
            },
            ..b
        },
    }
}

/// The sum of `a` and `b`, capped at `usize::MAX`.
pub open spec fn capped(x: int) -> usize {
    if x > usize::MAX {
        usize::MAX
    } else if x < 0 {
        0
    } else {
        x as usize
    }
}

/// The words (`words` true) or characters of `k` and of all its descendants
/// reached through children that are not excluded.
pub open spec fn aggregate_of(m: Map<usize, Block>, k: usize, words: bool) -> int
    decreases usize::MAX - k, m[k].children_ids@.len() + 1,
{
    let own = if words {
        m[k].self_stats.count.words
    } else {
        m[k].self_stats.count.characters
    };
    own + children_total(m, k, m[k].children_ids@, words)
}

/// Whether child `c` of `k` counts towards the aggregate of `k`.
pub open spec fn counts_towards(m: Map<usize, Block>, k: usize, c: usize) -> bool {
    m.contains_key(c) && c > k && !m[c].exclude
}

/// The aggregates of those of `ids` that count towards `k`.
pub open spec fn children_total(m: Map<usize, Block>, k: usize, ids: Seq<usize>, words: bool) -> int
    decreases usize::MAX - k, ids.len(),
{
    if ids.len() == 0 {
        0
    } else {
        let c = ids.last();
        children_total(m, k, ids.drop_last(), words) + if counts_towards(m, k, c) {
            aggregate_of(m, c, words)
        } else {
            0
        }
    }
}

/// Block `k` after the aggregation stage: its aggregate count is the capped
/// aggregate; everything else stays.
pub open spec fn aggregated_block(m: Map<usize, Block>, k: usize) -> Block {
    Block {
        aggregate_stats: WordStatistics {
            count: WordCount {
                words: capped(aggregate_of(m, k, true)),
                characters: capped(aggregate_of(m, k, false)),
            },
            ..m[k].aggregate_stats
        },
        ..m[k]
    }
}

pub(crate) proof fn lemma_children_nonnegative(m: Map<usize, Block>, k: usize, words: bool)
    ensures
        aggregate_of(m, k, words) >= 0,
    decreases usize::MAX - k, m[k].children_ids@.len() + 1,
{
    lemma_children_total_nonnegative(m, k, m[k].children_ids@, words);
}

pub(crate) proof fn lemma_children_total_nonnegative(m: Map<usize, Block>, k: usize, ids: Seq<usize>, words: bool)
    ensures
        children_total(m, k, ids, words) >= 0,
    decreases usize::MAX - k, ids.len(),
{
    if ids.len() > 0 {
        lemma_children_total_nonnegative(m, k, ids.drop_last(), words);
        let c = ids.last();
        if counts_towards(m, k, c) {
            lemma_children_nonnegative(m, c, words);
        }
    }
}

fn add_capped(a: usize, b: usize) -> (r: usize)
    ensures
        r == capped(a + b),
{
    a.saturating_add(b)
}

impl BlockUtils {
    /// Fill in the hash and the own word count of every block from its
    /// content, where they are not set yet (see `processed_block`).
    pub fn process_block_contents(blocks: &mut Blocks)
        ensures
            final(blocks)@.dom() == old(blocks)@.dom(),
            forall|k: usize| #[trigger]
                final(blocks)@.contains_key(k) ==> final(blocks)@[k] == processed_block(
                    old(blocks)@[k],
                ),
    {
        let ghost m0 = blocks@;
        let keys = sorted_keys(blocks);
        for i in 0..keys.len()
            invariant
                strictly_ascending(keys@),
                forall|k: usize| #[trigger] keys@.contains(k) <==> m0.contains_key(k),
                blocks@.dom() == m0.dom(),
                forall|k: usize| #[trigger]
                    blocks@.contains_key(k) ==> blocks@[k] == if keys@.take(i as int).contains(k) {
                        processed_block(m0[k])
                    } else {
                        m0[k]
                    },
        {
            let k = keys[i];
            assert(keys@.contains(k));
            assert(keys@.take(i + 1) =~= keys@.take(i as int).push(k));
            assert(!keys@.take(i as int).contains(k)) by {
                if keys@.take(i as int).contains(k) {
                    let q = keys@.take(i as int).index_of(k);
                    assert(keys@[q] < keys@[i as int]);
                }
            }
            let ghost before = blocks@;
            let mut block = blocks.remove(&k).unwrap();
            match &block.content {
                Some(c) => {
                    if block.hash.is_none() {
                        block.hash = Some(compute_hash(c));
                    }
                    if block.self_stats.count.words == 0 {
                        block.self_stats.count(c);
                    }
                },
                None => {},
            }
            blocks.insert(k, block);
            assert(blocks@ == before.insert(k, processed_block(m0[k])));
        }
        proof {
            assert(keys@.take(keys@.len() as int) =~= keys@);
        }
    }

    /// Roll the own counts up the tree: the aggregate count of each block is
    /// its own count plus the aggregate counts of its children that are not
    /// excluded, capped at `usize::MAX` (see `aggregated_block`). A child is
    /// followed only when its id is greater than its parent's.
    pub fn aggregate_statistics(blocks: &mut Blocks)
        ensures
            final(blocks)@.dom() == old(blocks)@.dom(),
            forall|k: usize| #[trigger]
                final(blocks)@.contains_key(k) ==> final(blocks)@[k] == aggregated_block(
                    old(blocks)@,
                    k,
                ),
    {
        let ghost m0 = blocks@;
        let keys = sorted_keys(blocks);
        let n = keys.len();
        let mut i: usize = n;
        while i > 0
            invariant
                n == keys@.len(),
                i <= n,
                strictly_ascending(keys@),
                forall|k: usize| #[trigger] keys@.contains(k) <==> m0.contains_key(k),
                blocks@.dom() == m0.dom(),
                forall|k: usize| #[trigger]
                    blocks@.contains_key(k) ==> blocks@[k] == if keys@.skip(i as int).contains(k) {
                        aggregated_block(m0, k)
                    } else {
                        m0[k]
                    },
            decreases i,
        {
            let k = keys[i - 1];
            assert(keys@.contains(k));
            assert(keys@.skip(i - 1) =~= seq![k] + keys@.skip(i as int));
            assert(!keys@.skip(i as int).contains(k)) by {
                if keys@.skip(i as int).contains(k) {
                    let q = keys@.skip(i as int).index_of(k);
                    assert(keys@[q + i] > keys@[i - 1]);
                }
            }
            let block = block_at(blocks, k);
            assert(block.children_ids@ == m0[k].children_ids@);
            let mut words = block.self_stats.count.words;
            let mut characters = block.self_stats.count.characters;
            let nc = block.children_ids.len();
            for j in 0..nc
                invariant
                    nc == block.children_ids@.len(),
                    block.children_ids@ == m0[k].children_ids@,
                    *block == m0[k],
                    blocks@.dom() == m0.dom(),
                    strictly_ascending(keys@),
                    forall|q: usize| #[trigger] keys@.contains(q) <==> m0.contains_key(q),
                    0 < i <= n == keys@.len(),
                    k == keys@[i - 1],
                    forall|q: usize| #[trigger]
                        blocks@.contains_key(q) ==> blocks@[q] == if keys@.skip(i as int).contains(q) {
                            aggregated_block(m0, q)
                        } else {
                            m0[q]
                        },
                    words == capped(m0[k].self_stats.count.words + children_total(m0, k, block.children_ids@.take(j as int), true)),
                    characters == capped(m0[k].self_stats.count.characters + children_total(m0, k, block.children_ids@.take(j as int), false)),
            {
                let c = block.children_ids[j];
                assert(block.children_ids@.take(j + 1).drop_last() =~= block.children_ids@.take(j as int));
                proof {
                    lemma_children_total_nonnegative(m0, k, block.children_ids@.take(j as int), true);
                    lemma_children_total_nonnegative(m0, k, block.children_ids@.take(j as int), false);
                }
                if c > k && blocks.contains_key(&c) {
                    let child = block_at(blocks, c);
                    proof {
                        assert(keys@.contains(c));
                        let q = keys@.index_of(c);
                        if q < i {
                            assert(keys@[q] <= keys@[i - 1]);
                        }
                        assert(keys@.skip(i as int)[q - i] == c);
                        assert(keys@.skip(i as int).contains(c));
                        lemma_children_nonnegative(m0, c, true);
                        lemma_children_nonnegative(m0, c, false);
                    }
                    if !child.exclude {
                        words = add_capped(words, child.aggregate_stats.count.words);
                        characters = add_capped(characters, child.aggregate_stats.count.characters);
                    }
                }
            }
            assert(block.children_ids@.take(nc as int) =~= block.children_ids@);
            let ghost before = blocks@;
            let mut updated = blocks.remove(&k).unwrap();
            updated.aggregate_stats.count = WordCount { words, characters };
            blocks.insert(k, updated);
            assert(blocks@ == before.insert(k, aggregated_block(m0, k)));
            i = i - 1;
        }
        proof {
            assert(keys@.skip(0) =~= keys@);
        }
    }
}

} // verus!

verus! {

/// The block set after the content stage.
pub open spec fn process_all(m: Map<usize, Block>) -> Map<usize, Block> {
    Map::new(|k: usize| m.contains_key(k), |k: usize| processed_block(m[k]))
}

/// The block set after the aggregation stage.
pub open spec fn aggregate_all(m: Map<usize, Block>) -> Map<usize, Block> {
    Map::new(|k: usize| m.contains_key(k), |k: usize| aggregated_block(m, k))
}

} // verus!
