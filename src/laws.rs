//! Properties of the pipeline as a whole, each proved from the stages' contracts.
use vstd::prelude::*;

use crate::block::Block;
use crate::builder::{
    built_block, heading_depths, headings, lemma_headings_len, nearest_shallower, ReaderEvent,
};
use crate::distribution::dense_ids;
use crate::builder::{children_of, lemma_children_ascending};
use crate::freeout::{built_set, lemma_pipeline_shape, pipeline_of, same_shape};
use crate::statistics::WordsTarget;
use crate::processor::{
    aggregate_all, aggregate_of, children_total, counts_towards, lemma_children_nonnegative,
    lemma_children_total_nonnegative, process_all, processed_block,
};
use crate::ranges::{boundary_of, lemma_boundary_unique, resolve_all};
use crate::position::{end_position_of, prior_position_of};
use crate::outline::{item_ids, item_matches, outline_matches, Outline, OutlineItem};
use crate::tree::{is_boundary, strictly_ascending};

verus! {

/// The ids of a block set that the builder made are exactly `1..=N`, so the
/// validator accepts it.
pub proof fn lemma_built_ids_dense(m: Map<usize, Block>, events: Seq<ReaderEvent>, include_content: bool)
    requires
        built_set(m, events, include_content),
        events.len() < usize::MAX,
    ensures
        dense_ids(m, m.len() as usize),
{
    lemma_headings_len(events);
}

proof fn lemma_nearest_is_shallower(ds: Seq<usize>, d: usize, j: int)
    requires
        j <= ds.len(),
        j <= usize::MAX,
    ensures
        nearest_shallower(ds, d, j) matches Some(p) ==> 1 <= p <= j && ds[p - 1] < d && forall|q: int|
            p < q <= j ==> #[trigger] ds[q - 1] >= d,
        nearest_shallower(ds, d, j) is None ==> forall|q: int| 1 <= q <= j ==> #[trigger] ds[q - 1] >= d,
    decreases j,
{
    if j > 0 {
        lemma_nearest_is_shallower(ds, d, j - 1);
    }
}

/// In a block set that the builder made, a parent is shallower than its
/// child, comes before it, and every block between them is at least as deep
/// as the child.
pub proof fn lemma_built_parent_shallower(m: Map<usize, Block>, events: Seq<ReaderEvent>, include_content: bool, k: usize)
    requires
        built_set(m, events, include_content),
        events.len() < usize::MAX,
        m.contains_key(k),
    ensures
        m[k].parent_id matches Some(p) ==> m.contains_key(p) && p < k && m[p].depth < m[k].depth
            && forall|q: usize| p < q < k ==> #[trigger] m[q].depth >= m[k].depth,
        m[k].parent_id is None ==> forall|q: usize| 1 <= q < k ==> #[trigger] m[q].depth >= m[k].depth,
{
    lemma_headings_len(events);
    let ds = heading_depths(events);
    let hs = headings(events);
    assert(ds.len() == hs.len());
    assert(m[k]@ == built_block(events, include_content, k as int));
    lemma_nearest_is_shallower(ds, ds[k - 1], k - 1);
    assert forall|q: usize| 1 <= q <= hs.len() implies #[trigger] m[q].depth == ds[q - 1] by {
        assert(m.contains_key(q));
        assert(m[q]@ == built_block(events, include_content, q as int));
    }
}


/// When block `b` is the boundary block of block `k`, whose range was not
/// set, the resolver ends the range of `k` at the position just before the
/// header of `b`.
pub proof fn lemma_range_contiguity(m: Map<usize, Block>, bytes: Seq<u8>, k: usize, b: usize)
    requires
        m.contains_key(k),
        m[k].block_range is None,
        is_boundary(m, k, m[k].depth, b),
    ensures
        resolve_all(m, bytes)[k].block_range matches Some(r) && r.start == m[k].header_range.start
            && r.end == prior_position_of(bytes, m[b].header_range.start),
{
    lemma_boundary_unique(m, k, m[k].depth, Some(b));
}

/// Running the content stage a second time changes nothing.
pub proof fn lemma_process_idempotent(m: Map<usize, Block>)
    ensures
        process_all(process_all(m)) == process_all(m),
{
    let once = process_all(m);
    let twice = process_all(once);
    assert forall|k: usize| #[trigger] once.contains_key(k) implies twice[k] == once[k] by {
        lemma_processed_block_idempotent(m[k]);
    }
    assert(twice =~= once);
}

/// Running the content stage on one block a second time changes nothing.
pub proof fn lemma_processed_block_idempotent(b: Block)
    ensures
        processed_block(processed_block(b)) == processed_block(b),
{
}

/// The aggregate words of the children of `k` that count towards it, read
/// from the set `r`.
pub open spec fn children_aggregate_words(r: Map<usize, Block>, k: usize, ids: Seq<usize>) -> int
    decreases ids.len(),
{
    if ids.len() == 0 {
        0
    } else {
        children_aggregate_words(r, k, ids.drop_last()) + if counts_towards(r, k, ids.last()) {
            r[ids.last()].aggregate_stats.count.words as int
        } else {
            0
        }
    }
}

proof fn lemma_children_sum_matches(m: Map<usize, Block>, k: usize, ids: Seq<usize>)
    requires
        children_total(m, k, ids, true) <= usize::MAX,
    ensures
        children_aggregate_words(aggregate_all(m), k, ids) == children_total(m, k, ids, true),
    decreases ids.len(),
{
    if ids.len() > 0 {
        let c = ids.last();
        lemma_children_total_nonnegative(m, k, ids.drop_last(), true);
        lemma_children_nonnegative(m, c, true);
        lemma_children_sum_matches(m, k, ids.drop_last());
        let r = aggregate_all(m);
        if counts_towards(m, k, c) {
            assert(r.contains_key(c));
        }
    }
}

/// After aggregation, the aggregate words of a block are its own words plus
/// the aggregate words of its children that are not excluded (and come after
/// it), wherever that total fits in a `usize`.
pub proof fn lemma_aggregate_correct(m: Map<usize, Block>, k: usize)
    requires
        m.contains_key(k),
        aggregate_of(m, k, true) <= usize::MAX,
    ensures
        aggregate_all(m)[k].aggregate_stats.count.words == aggregate_all(m)[k].self_stats.count.words
            + children_aggregate_words(aggregate_all(m), k, aggregate_all(m)[k].children_ids@),
{
    lemma_children_total_nonnegative(m, k, m[k].children_ids@, true);
    lemma_children_sum_matches(m, k, m[k].children_ids@);
}


/// At every level below `item`, the subitems are in strictly ascending id.
pub open spec fn ordered_item(item: OutlineItem) -> bool
    decreases item,
{
    &&& strictly_ascending(item_ids(item.subitems@))
    &&& forall|i: int| 0 <= i < item.subitems@.len() ==> ordered_item(#[trigger] item.subitems@[i])
}

proof fn lemma_item_ordered(m: Map<usize, Block>, item: OutlineItem)
    requires
        item_matches(m, item),
        forall|k: usize| #[trigger] m.contains_key(k) ==> m[k].children_ids@.no_duplicates(),
    ensures
        ordered_item(item),
    decreases item,
{
    broadcast use vstd::seq_lib::group_to_multiset_ensures;

    let ids = item_ids(item.subitems@);
    let children = m[item.block.id].children_ids@;
    children.lemma_multiset_has_no_duplicates();
    assert forall|x: usize| ids.to_multiset().contains(x) implies ids.to_multiset().count(x) == 1 by {}
    ids.lemma_multiset_has_no_duplicates_conv();
    assert forall|i: int| 0 <= i < item.subitems@.len() implies ordered_item(#[trigger] item.subitems@[i]) by {
        lemma_item_ordered(m, item.subitems@[i]);
    }
}

/// In the outline of a block set whose children lists hold no id twice, the
/// roots and, at every level, the subitems appear in strictly ascending id.
pub proof fn lemma_outline_ordered(m: Map<usize, Block>, o: Outline)
    requires
        outline_matches(m, o),
        forall|k: usize| #[trigger] m.contains_key(k) ==> m[k].children_ids@.no_duplicates(),
    ensures
        strictly_ascending(item_ids(o.items@)),
        forall|i: int| 0 <= i < o.items@.len() ==> ordered_item(#[trigger] o.items@[i]),
{
    assert forall|i: int| 0 <= i < o.items@.len() implies ordered_item(#[trigger] o.items@[i]) by {
        lemma_item_ordered(m, o.items@[i]);
    }
}


/// The headers of `m` lie in document order in the text whose bytes are
/// `bytes`: each starts no later than it ends, ends within the text and no
/// later than the position just before any later header, and that position
/// is not past the later header's start.
pub open spec fn headers_in_order(m: Map<usize, Block>, bytes: Seq<u8>) -> bool {
    &&& forall|i: usize| #[trigger] m.contains_key(i) ==> m[i].header_range.start.offset
        <= m[i].header_range.end.offset <= bytes.len() && prior_position_of(
        bytes,
        m[i].header_range.start,
    ).offset <= m[i].header_range.start.offset
    &&& forall|i: usize, j: usize| #[trigger] m.contains_key(i) && #[trigger] m.contains_key(j) && i < j
        ==> m[i].header_range.end.offset <= prior_position_of(bytes, m[j].header_range.start).offset
}

proof fn lemma_boundary_exists(m: Map<usize, Block>, id: usize, d: usize, x: usize)
    requires
        m.contains_key(x),
        id < x,
        m[x].depth <= d,
    ensures
        exists|b: usize| is_boundary(m, id, d, b),
    decreases x - id,
{
    if exists|q: usize| #[trigger] m.contains_key(q) && id < q < x && m[q].depth <= d {
        let q = choose|q: usize| #[trigger] m.contains_key(q) && id < q < x && m[q].depth <= d;
        lemma_boundary_exists(m, id, d, q);
    } else {
        assert(is_boundary(m, id, d, x));
    }
}

proof fn lemma_child_range(m: Map<usize, Block>, events: Seq<ReaderEvent>, include_content: bool, bytes: Seq<u8>, k: usize, c: usize)
    requires
        built_set(m, events, include_content),
        events.len() < usize::MAX,
        bytes.len() <= usize::MAX,
        headers_in_order(m, bytes),
        m.contains_key(c),
        m[c].parent_id == Some(k),
    ensures
        resolve_all(m, bytes)[k].block_range.unwrap().contains(resolve_all(m, bytes)[c].block_range.unwrap()),
{
    lemma_built_parent_shallower(m, events, include_content, c);
    assert(m[k]@ == built_block(events, include_content, k as int));
    assert(m[c]@ == built_block(events, include_content, c as int));
    let dk = m[k].depth;
    let dc = m[c].depth;
    let bytes_end = end_position_of(bytes);
    assert(m.contains_key(k) && m.contains_key(c) && k < c);
    match boundary_of(m, k, dk) {
        Some(bk) => {
            assert(is_boundary(m, k, dk, bk));
            if bk <= c {
                if bk < c {
                    assert(m[bk].depth >= dc);
                }
            }
            lemma_boundary_exists(m, c, dc, bk);
            let bc = boundary_of(m, c, dc).unwrap();
            assert(is_boundary(m, c, dc, bc));
            if bc > bk {
                assert(m.contains_key(bk) && c < bk < bc);
            }
            if bc < bk {
                assert(m.contains_key(bc) && m.contains_key(bk));
            }
        },
        None => {
            match boundary_of(m, c, dc) {
                Some(bc) => {
                    assert(is_boundary(m, c, dc, bc));
                    assert(m.contains_key(bc));
                },
                None => {},
            }
        },
    }
}

/// Following parent links `n` times from `d` leads to `k`.
pub open spec fn reaches(m: Map<usize, Block>, d: usize, k: usize, n: nat) -> bool
    decreases n,
{
    if n == 0 {
        d == k
    } else {
        match m[d].parent_id {
            Some(p) => m.contains_key(d) && reaches(m, p, k, (n - 1) as nat),
            None => false,
        }
    }
}

/// Once the ranges of a block set that the builder made are resolved, with
/// its headers in document order, the range of every block covers the range
/// of each of its descendants, by byte offsets.
pub proof fn lemma_descendant_range(m: Map<usize, Block>, events: Seq<ReaderEvent>, include_content: bool, bytes: Seq<u8>, d: usize, k: usize, n: nat)
    requires
        built_set(m, events, include_content),
        events.len() < usize::MAX,
        bytes.len() <= usize::MAX,
        headers_in_order(m, bytes),
        m.contains_key(d),
        reaches(m, d, k, n),
    ensures
        resolve_all(m, bytes)[k].block_range.unwrap().contains(resolve_all(m, bytes)[d].block_range.unwrap()),
    decreases n,
{
    if n > 0 {
        let p = m[d].parent_id.unwrap();
        lemma_built_parent_shallower(m, events, include_content, d);
        lemma_child_range(m, events, include_content, bytes, p, d);
        lemma_descendant_range(m, events, include_content, bytes, p, k, (n - 1) as nat);
    }
}

/// Once the ranges of a block set that the builder made are resolved, with
/// its headers in document order, the range of every block covers its header
/// and the range of each of its children, by byte offsets.
pub proof fn lemma_range_containment(m: Map<usize, Block>, events: Seq<ReaderEvent>, include_content: bool, bytes: Seq<u8>, k: usize)
    requires
        built_set(m, events, include_content),
        events.len() < usize::MAX,
        bytes.len() <= usize::MAX,
        headers_in_order(m, bytes),
        m.contains_key(k),
    ensures
        resolve_all(m, bytes)[k].block_range matches Some(range) && range.contains(m[k].header_range),
        forall|c: usize| #[trigger] m.contains_key(c) && m[c].parent_id == Some(k)
            ==> resolve_all(m, bytes)[k].block_range.unwrap().contains(resolve_all(m, bytes)[c].block_range.unwrap()),
{
    assert(m[k]@ == built_block(events, include_content, k as int));
    match boundary_of(m, k, m[k].depth) {
        Some(bk) => {
            assert(is_boundary(m, k, m[k].depth, bk));
            assert(m.contains_key(bk));
        },
        None => {},
    }
    assert forall|c: usize| #[trigger] m.contains_key(c) && m[c].parent_id == Some(k)
        implies resolve_all(m, bytes)[k].block_range.unwrap().contains(resolve_all(m, bytes)[c].block_range.unwrap()) by {
        lemma_child_range(m, events, include_content, bytes, k, c);
    }
}


/// The outline of a block set that the builder made and the pipeline
/// processed lists roots and, at every level, subitems in strictly ascending id.
pub proof fn lemma_built_outline_ordered(
    m: Map<usize, Block>,
    events: Seq<ReaderEvent>,
    include_content: bool,
    bytes: Seq<u8>,
    target: Option<WordsTarget>,
    o: Outline,
)
    requires
        built_set(m, events, include_content),
        events.len() < usize::MAX,
        outline_matches(pipeline_of(m, bytes, target), o),
    ensures
        strictly_ascending(item_ids(o.items@)),
        forall|i: int| 0 <= i < o.items@.len() ==> ordered_item(#[trigger] o.items@[i]),
{
    let mf = pipeline_of(m, bytes, target);
    lemma_pipeline_shape(m, bytes, target);
    lemma_headings_len(events);
    let ds = heading_depths(events);
    assert forall|k: usize| #[trigger] mf.contains_key(k) implies mf[k].children_ids@.no_duplicates() by {
        assert(m[k]@ == built_block(events, include_content, k as int));
        lemma_children_ascending(ds, k as int, ds.len() as int);
    }
    lemma_outline_ordered(mf, o);
}

} // verus!
