//! The target distributor: a root word target shared down the tree.
use vstd::prelude::*;

use crate::block::{Block, Blocks};
use crate::processor::capped;
use crate::statistics::{
    balance_of, clamp_isize, DistributionMethod, WordStatistics, WordsStatus, WordsTarget,
};
use crate::tree::{block_at, BlockUtils};

verus! {

broadcast use {vstd::std_specs::hash::group_hash_axioms, vstd::seq_lib::group_seq_properties};

/// The ids of `m` are exactly `1..=n`.
pub open spec fn dense_ids(m: Map<usize, Block>, n: usize) -> bool {
    forall|k: usize| #[trigger] m.contains_key(k) <==> 1 <= k <= n
}

/// Block `j` is a member of the sibling group under `parent` that shares a
/// target: it has that parent and is not excluded.
pub open spec fn in_group(m: Map<usize, Block>, parent: Option<usize>, j: int) -> bool {
    &&& 0 <= j <= usize::MAX
    &&& m.contains_key(j as usize)
    &&& m[j as usize].parent_id == parent
    &&& !m[j as usize].exclude
}

/// Aggregate words of the group members with id below `k`.
pub open spec fn group_words_before(m: Map<usize, Block>, parent: Option<usize>, k: int) -> int
    decreases k,
{
    if k <= 0 {
        0
    } else {
        group_words_before(m, parent, k - 1) + if in_group(m, parent, k - 1) {
            m[(k - 1) as usize].aggregate_stats.count.words as int
        } else {
            0
        }
    }
}

/// Number of group members with id in `lo..hi`.
pub open spec fn group_count(m: Map<usize, Block>, parent: Option<usize>, lo: int, hi: int) -> int
    decreases hi - lo,
{
    if hi <= lo {
        0
    } else {
        group_count(m, parent, lo, hi - 1) + if in_group(m, parent, hi - 1) {
            1int
        } else {
            0int
        }
    }
}

/// The target that the group holding `k` shares: `root` for the roots, and
/// for the children of a block, that block's adjusted target.
pub open spec fn group_target(m: Map<usize, Block>, root: usize, n: usize, k: usize) -> Option<usize>
    decreases k, 0nat,
{
    match m[k].parent_id {
        None => Some(root),
        Some(p) => if p < k {
            adjusted_of(m, root, n, p)
        } else {
            None
        },
    }
}

/// The adjusted target of block `k`: what is left of its group's target once
/// the earlier members took their actual words (never below zero), shared
/// evenly, rounding down, among `k` and the later members. `None` for a block
/// that is excluded or whose group has no target.
pub open spec fn adjusted_of(m: Map<usize, Block>, root: usize, n: usize, k: usize) -> Option<usize>
    decreases k, 1nat,
{
    if !(1 <= k <= n) || !m.contains_key(k) || m[k].exclude {
        None
    } else {
        match group_target(m, root, n, k) {
            None => None,
            Some(t) => {
                let parent = m[k].parent_id;
                let rest = t - group_words_before(m, parent, k as int);
                let left = if rest > 0 {
                    rest
                } else {
                    0
                };
                Some((left / group_count(m, parent, k as int, n + 1)) as usize)
            },
        }
    }
}

/// The nominal share of `k`: its group's target divided evenly, rounding
/// down, among all the members.
pub open spec fn nominal_of(m: Map<usize, Block>, root: usize, n: usize, k: usize) -> usize {
    let t = group_target(m, root, n, k).unwrap();
    (t as int / group_count(m, m[k].parent_id, 1, n + 1)) as usize
}

/// Block `k` after the distributor: a block with an adjusted target gets its
/// nominal share as target and its balance against the adjusted target as
/// status, both on its aggregate statistics; the others stay as they are.
pub open spec fn distributed_block(m: Map<usize, Block>, root: usize, n: usize, k: usize) -> Block {
    match adjusted_of(m, root, n, k) {
        None => m[k],
        Some(a) => Block {
            aggregate_stats: WordStatistics {
                target: Some(
                    WordsTarget {
                        words: nominal_of(m, root, n, k),
                        distribution: Some(DistributionMethod::Uniform),
                    },
                ),
                status: Some(
                    WordsStatus {
                        balance: clamp_isize(m[k].aggregate_stats.count.words - a),
                        adjusted_target: Some(a),
                    },
                ),
                ..m[k].aggregate_stats
            },
            ..m[k]
        },
    }
}

proof fn lemma_group_words_nonnegative(m: Map<usize, Block>, parent: Option<usize>, k: int)
    ensures
        group_words_before(m, parent, k) >= 0,
    decreases k,
{
    if k > 0 {
        lemma_group_words_nonnegative(m, parent, k - 1);
    }
}

proof fn lemma_group_count_split(m: Map<usize, Block>, parent: Option<usize>, lo: int, mid: int, hi: int)
    requires
        lo <= mid <= hi,
    ensures
        group_count(m, parent, lo, hi) == group_count(m, parent, lo, mid) + group_count(m, parent, mid, hi),
        group_count(m, parent, mid, hi) >= 0,
    decreases hi - mid,
{
    if mid < hi {
        lemma_group_count_split(m, parent, lo, mid, hi - 1);
    }
}

/// `a` and `b` agree on what the groups read: ids, parents, exclusion and
/// aggregate counts.
pub open spec fn same_groups(a: Map<usize, Block>, b: Map<usize, Block>) -> bool {
    &&& a.dom() == b.dom()
    &&& forall|q: usize| #[trigger] a.contains_key(q) ==> a[q].parent_id == b[q].parent_id
        && a[q].exclude == b[q].exclude && a[q].aggregate_stats.count == b[q].aggregate_stats.count
}

proof fn lemma_same_groups(a: Map<usize, Block>, b: Map<usize, Block>, parent: Option<usize>, lo: int, hi: int)
    requires
        same_groups(a, b),
    ensures
        group_count(a, parent, lo, hi) == group_count(b, parent, lo, hi),
        group_words_before(a, parent, hi) == group_words_before(b, parent, hi),
    decreases hi - lo,
{
    if hi > lo {
        lemma_same_groups(a, b, parent, lo, hi - 1);
    }
    lemma_same_words(a, b, parent, hi);
}

proof fn lemma_same_words(a: Map<usize, Block>, b: Map<usize, Block>, parent: Option<usize>, k: int)
    requires
        same_groups(a, b),
    ensures
        group_words_before(a, parent, k) == group_words_before(b, parent, k),
    decreases k,
{
    if k > 0 {
        lemma_same_words(a, b, parent, k - 1);
    }
}

/// Members of `parent`'s group with id in `lo..hi`, counted.
fn count_members(blocks: &Blocks, n: usize, parent: Option<usize>, lo: usize, hi: usize) -> (r: usize)
    requires
        dense_ids(blocks@, n),
        lo <= hi <= n + 1,
        n < usize::MAX,
    ensures
        r == group_count(blocks@, parent, lo as int, hi as int),
{
    let mut c: usize = 0;
    let mut j: usize = lo;
    while j < hi
        invariant
            dense_ids(blocks@, n),
            lo <= j <= hi <= n + 1,
            n < usize::MAX,
            c == group_count(blocks@, parent, lo as int, j as int),
            c <= j - lo,
        decreases hi - j,
    {
        if j >= 1 {
            let b = block_at(blocks, j);
            if b.parent_id == parent && !b.exclude {
                c = c + 1;
            }
        }
        j = j + 1;
    }
    c
}

/// Aggregate words of the members of `parent`'s group below `k`, capped.
fn words_before(blocks: &Blocks, n: usize, parent: Option<usize>, k: usize) -> (r: usize)
    requires
        dense_ids(blocks@, n),
        k <= n + 1,
        n < usize::MAX,
    ensures
        r == capped(group_words_before(blocks@, parent, k as int)),
{
    let mut sum: usize = 0;
    let mut j: usize = 0;
    while j < k
        invariant
            dense_ids(blocks@, n),
            j <= k <= n + 1,
            n < usize::MAX,
            sum == capped(group_words_before(blocks@, parent, j as int)),
        decreases k - j,
    {
        proof {
            lemma_group_words_nonnegative(blocks@, parent, j as int);
        }
        if j >= 1 {
            let b = block_at(blocks, j);
            if b.parent_id == parent && !b.exclude {
                sum = sum.saturating_add(b.aggregate_stats.count.words);
            }
        }
        j = j + 1;
    }
    sum
}

impl BlockUtils {
    /// Share `target` among the roots and, recursively, each block's adjusted
    /// target among its children (see `distributed_block`). Within a group,
    /// members are taken in ascending id; each gets what is left of the
    /// group's target after the actual words of the members before it, divided
    /// evenly, rounding down, among it and the members after it, so that later
    /// members absorb both the remainder of the division and the overruns of
    /// earlier ones. The blocks' ids must be exactly `1..=len`.
    pub fn distribute_target(blocks: &mut Blocks, target: &WordsTarget)
        requires
            dense_ids(old(blocks)@, old(blocks)@.len() as usize),
            old(blocks)@.len() < usize::MAX,
        ensures
            final(blocks)@.dom() == old(blocks)@.dom(),
            forall|k: usize| #[trigger]
                final(blocks)@.contains_key(k) ==> final(blocks)@[k] == distributed_block(
                    old(blocks)@,
                    target.words,
                    old(blocks)@.len() as usize,
                    k,
                ),
    {
        let ghost m0 = blocks@;
        let n = blocks.len();
        let root = target.words;
        let mut assigned: Vec<Option<usize>> = Vec::new();
        assigned.push(None);
        let mut k: usize = 1;
        while k <= n
            invariant
                1 <= k <= n + 1,
                n == m0.len(),
                n < usize::MAX,
                root == target.words,
                dense_ids(m0, n),
                blocks@.dom() == m0.dom(),
                assigned@.len() == k,
                assigned@[0] is None,
                forall|q: int| 1 <= q < k ==> #[trigger] assigned@[q] == adjusted_of(m0, root, n, q as usize),
                forall|q: usize| #[trigger]
                    blocks@.contains_key(q) ==> blocks@[q] == if q < k {
                        distributed_block(m0, root, n, q)
                    } else {
                        m0[q]
                    },
                forall|q: usize| #[trigger] blocks@.contains_key(q) ==> blocks@[q].parent_id == m0[q].parent_id
                    && blocks@[q].exclude == m0[q].exclude
                    && blocks@[q].aggregate_stats.count == m0[q].aggregate_stats.count,
            decreases n + 1 - k,
        {
            assert(blocks@.contains_key(k));
            let block = block_at(blocks, k);
            let parent = block.parent_id;
            let exclude = block.exclude;
            let words = block.aggregate_stats.count.words;
            let group_target: Option<usize> = match parent {
                None => Some(root),
                Some(p) => if p < k {
                    assigned[p]
                } else {
                    None
                },
            };
            proof {
                if let Some(p) = parent {
                    if p < k && p == 0 {
                        assert(!(1 <= p));
                    }
                }
                assert(group_target == crate::distribution::group_target(m0, root, n, k));
            }
            let mut adjusted: Option<usize> = None;
            if !exclude {
                if let Some(t) = group_target {
                    let consumed = words_before(blocks, n, parent, k);
                    let left = if t > consumed {
                        t - consumed
                    } else {
                        0
                    };
                    let later = count_members(blocks, n, parent, k, n + 1);
                    let all = count_members(blocks, n, parent, 1, n + 1);
                    proof {
                        assert(same_groups(blocks@, m0));
                        lemma_same_groups(blocks@, m0, parent, k as int, n as int + 1);
                        lemma_same_groups(blocks@, m0, parent, 1, n as int + 1);
                        lemma_same_words(blocks@, m0, parent, k as int);
                        lemma_group_words_nonnegative(m0, parent, k as int);
                        lemma_group_count_split(m0, parent, k as int, k as int + 1, n as int + 1);
                        lemma_group_count_split(m0, parent, 1, k as int, n as int + 1);
                        lemma_group_count_split(m0, parent, 1, 1, k as int);
                        assert(in_group(m0, parent, k as int));
                        assert(group_count(m0, parent, k as int, k as int) == 0);
                        assert(group_count(m0, parent, k as int, k as int + 1) == 1);
                    }
                    let a = left / later;
                    adjusted = Some(a);
                    let ghost before = blocks@;
                    let mut updated = blocks.remove(&k).unwrap();
                    updated.aggregate_stats.target = Some(
                        WordsTarget { words: t / all, distribution: Some(DistributionMethod::Uniform) },
                    );
                    updated.aggregate_stats.status = Some(
                        WordsStatus { balance: balance_of(words, a), adjusted_target: Some(a) },
                    );
                    blocks.insert(k, updated);
                    assert(blocks@ == before.insert(k, distributed_block(m0, root, n, k)));
                }
            }
            assert(adjusted == adjusted_of(m0, root, n, k));
            assigned.push(adjusted);
            k = k + 1;
        }
    }
}

} // verus!

verus! {

/// The block set after the distributor, for a root target of `root` words.
pub open spec fn distribute_all(m: Map<usize, Block>, root: usize) -> Map<usize, Block> {
    Map::new(|k: usize| m.contains_key(k), |k: usize| distributed_block(m, root, m.len() as usize, k))
}

} // verus!
