//! The outline assembler: the finished block set as an ordered tree of copies.
use vstd::prelude::*;

use crate::block::{copy_ids, Block, Blocks};
use crate::error::FreeoutError;
use crate::tree::{ascending, block_at, sorted_ids, sorted_keys, strictly_ascending};

verus! {

broadcast use {vstd::std_specs::hash::group_hash_axioms, vstd::seq_lib::group_seq_properties, vstd::seq_lib::group_to_multiset_ensures};

/// The read-only tree handed to callers: the roots, by ascending id.
pub struct Outline {
    pub items: Vec<OutlineItem>,
}

/// One node of the outline: a copy of a block, and its children by ascending id.
pub struct OutlineItem {
    pub block: Block,
    pub subitems: Vec<OutlineItem>,
}

/// The ids of the blocks of `items`.
pub open spec fn item_ids(items: Seq<OutlineItem>) -> Seq<usize> {
    items.map_values(|it: OutlineItem| it.block.id)
}

/// `c`, listed as a child of `parent`, is held under its own id, after its parent.
pub open spec fn child_ok(m: Map<usize, Block>, parent: usize, c: usize) -> bool {
    m.contains_key(c) && c > parent && m[c].id == c
}

/// Every child listed below `k`, at any depth, is held as `child_ok` says.
pub open spec fn subtree_ok(m: Map<usize, Block>, k: usize) -> bool
    decreases usize::MAX - k,
{
    forall|i: int|
        0 <= i < m[k].children_ids@.len() ==> child_ok(m, k, #[trigger] m[k].children_ids@[i])
            && subtree_ok(m, m[k].children_ids@[i])
}

/// Every root is held under its own id, and its subtree is sound.
pub open spec fn outline_ok(m: Map<usize, Block>) -> bool {
    forall|k: usize| #[trigger]
        m.contains_key(k) && m[k].parent_id is None ==> m[k].id == k && subtree_ok(m, k)
}

/// `item` is a copy of the block under its id, and its subitems are the
/// items of that block's children, by ascending id.
pub open spec fn item_matches(m: Map<usize, Block>, item: OutlineItem) -> bool
    decreases item,
{
    &&& m.contains_key(item.block.id)
    &&& item.block@ == m[item.block.id]@
    &&& ascending(item_ids(item.subitems@))
    &&& item_ids(item.subitems@).to_multiset() == m[item.block.id].children_ids@.to_multiset()
    &&& forall|i: int|
        0 <= i < item.subitems@.len() ==> item_matches(m, #[trigger] item.subitems@[i])
}

/// The outline of `m`: its roots by strictly ascending id, each matching its block.
pub open spec fn outline_matches(m: Map<usize, Block>, o: Outline) -> bool {
    &&& strictly_ascending(item_ids(o.items@))
    &&& forall|k: usize| #[trigger]
        item_ids(o.items@).contains(k) <==> m.contains_key(k) && m[k].parent_id is None
    &&& forall|i: int| 0 <= i < o.items@.len() ==> item_matches(m, #[trigger] o.items@[i])
}

proof fn lemma_same_members(a: Seq<usize>, b: Seq<usize>, x: usize)
    requires
        a.to_multiset() == b.to_multiset(),
    ensures
        a.contains(x) <==> b.contains(x),
{
    assert(a.contains(x) <==> a.to_multiset().count(x) > 0);
    assert(b.contains(x) <==> b.to_multiset().count(x) > 0);
}

impl OutlineItem {
    /// The item of block `k` and, below it, of all its descendants.
    fn from_key(blocks: &Blocks, k: usize) -> (r: Result<OutlineItem, FreeoutError>)
        requires
            blocks@.contains_key(k),
            blocks@[k].id == k,
        ensures
            r is Ok <==> subtree_ok(blocks@, k),
            r matches Ok(item) ==> item_matches(blocks@, item) && item.block.id == k,
        decreases usize::MAX - k,
    {
        let block = block_at(blocks, k);
        let ids = sorted_ids(copy_ids(&block.children_ids));
        let ghost children = block.children_ids@;
        let mut subitems: Vec<OutlineItem> = Vec::new();
        for i in 0..ids.len()
            invariant
                *block == blocks@[k],
                children == blocks@[k].children_ids@,
                ids@.to_multiset() == children.to_multiset(),
                ascending(ids@),
                subitems@.len() == i,
                forall|j: int| 0 <= j < i ==> child_ok(blocks@, k, #[trigger] ids@[j]) && subtree_ok(blocks@, ids@[j]),
                forall|j: int| 0 <= j < i ==> (#[trigger] subitems@[j]).block.id == ids@[j] && item_matches(blocks@, subitems@[j]),
        {
            let c = ids[i];
            proof {
                lemma_same_members(ids@, children, c);
            }
            if !(c > k && blocks.contains_key(&c)) {
                proof {
                    let q = children.index_of(c);
                    assert(!child_ok(blocks@, k, children[q]));
                }
                return Err(FreeoutError::MissingChild { parent: k, child: c });
            }
            if block_at(blocks, c).id != c {
                proof {
                    let q = children.index_of(c);
                    assert(!child_ok(blocks@, k, children[q]));
                }
                return Err(FreeoutError::MissingChild { parent: k, child: c });
            }
            match Self::from_key(blocks, c) {
                Ok(item) => {
                    subitems.push(item);
                },
                Err(e) => {
                    proof {
                        let q = children.index_of(c);
                        assert(!subtree_ok(blocks@, children[q]));
                    }
                    return Err(e);
                },
            }
        }
        proof {
            assert forall|q: int| 0 <= q < children.len() implies child_ok(blocks@, k, #[trigger] children[q])
                && subtree_ok(blocks@, children[q]) by {
                lemma_same_members(ids@, children, children[q]);
                let j = ids@.index_of(children[q]);
            }
            assert(item_ids(subitems@) =~= ids@);
        }
        Ok(OutlineItem { block: block.snapshot(), subitems })
    }

    /// The item of `block` (held in `blocks` under its id) and of all its
    /// descendants.
    pub fn from_block(block: &Block, blocks: &Blocks) -> (r: Result<OutlineItem, FreeoutError>)
        requires
            blocks@.contains_key(block.id),
            blocks@[block.id] == *block,
        ensures
            r is Ok <==> subtree_ok(blocks@, block.id),
            r matches Ok(item) ==> item_matches(blocks@, item) && item.block.id == block.id,
    {
        Self::from_key(blocks, block.id)
    }
}

impl Outline {
    /// The outline of the block set: every root, by ascending id, with its
    /// descendants below it. Fails where a listed child is not held under its
    /// id after its parent, or a root is held under another key.
    pub fn build_outline(blocks: &Blocks) -> (r: Result<Outline, FreeoutError>)
        ensures
            r is Ok <==> outline_ok(blocks@),
            r matches Ok(o) ==> outline_matches(blocks@, o),
    {
        let keys = sorted_keys(blocks);
        let mut items: Vec<OutlineItem> = Vec::new();
        let ghost mut roots: Seq<usize> = Seq::empty();
        for i in 0..keys.len()
            invariant
                strictly_ascending(keys@),
                forall|k: usize| #[trigger] keys@.contains(k) <==> blocks@.contains_key(k),
                item_ids(items@) == roots,
                strictly_ascending(roots),
                forall|j: int| 0 <= j < roots.len() ==> keys@.take(i as int).contains(#[trigger] roots[j]),
                forall|x: usize| #[trigger] roots.contains(x) <==> keys@.take(i as int).contains(x) && blocks@[x].parent_id is None,
                forall|j: int| 0 <= j < items@.len() ==> item_matches(blocks@, #[trigger] items@[j]),
                forall|j: int| 0 <= j < i && blocks@[#[trigger] keys@[j]].parent_id is None ==> blocks@[keys@[j]].id == keys@[j] && subtree_ok(blocks@, keys@[j]),
        {
            let k = keys[i];
            assert(keys@.contains(k));
            assert(keys@.take(i + 1) =~= keys@.take(i as int).push(k));
            let block = block_at(blocks, k);
            if block.parent_id.is_none() {
                if block.id != k {
                    return Err(FreeoutError::IdMismatch { key: k, found: block.id });
                }
                match OutlineItem::from_key(blocks, k) {
                    Ok(item) => {
                        items.push(item);
                        proof {
                            assert(subtree_ok(blocks@, k) && blocks@[k].id == k);
                            assert forall|j: int| 0 <= j < roots.len() implies roots[j] < k by {
                                let q = keys@.take(i as int).index_of(roots[j]);
                                assert(keys@[q] < keys@[i as int]);
                            }
                            roots = roots.push(k);
                        }
                    },
                    Err(e) => {
                        return Err(e);
                    },
                }
            }
            proof {
                assert(item_ids(items@) =~= roots);
                assert(blocks@[k].parent_id is None ==> blocks@[k].id == k && subtree_ok(blocks@, k));
            }
        }
        proof {
            assert(keys@.take(keys@.len() as int) =~= keys@);
            assert forall|k: usize| #[trigger] blocks@.contains_key(k) && blocks@[k].parent_id is None implies blocks@[k].id == k && subtree_ok(blocks@, k) by {
                assert(keys@.contains(k));
                let j = keys@.index_of(k);
            }
        }
        Ok(Outline { items })
    }
}

} // verus!
