//! The block set as a tree: key order, boundary blocks and relations.
use itertools::Itertools;
use vstd::prelude::*;
use vstd::std_specs::iter::IteratorSpec;

use crate::block::{Block, Blocks};

verus! {

broadcast use {vstd::std_specs::hash::group_hash_axioms, vstd::seq_lib::group_seq_properties};

/// `s` is in strictly ascending order.
pub open spec fn strictly_ascending(s: Seq<usize>) -> bool {
    forall|i: int, j: int| 0 <= i < j < s.len() ==> s[i] < s[j]
}

/// `s` is in ascending order.
pub open spec fn ascending(s: Seq<usize>) -> bool {
    forall|i: int, j: int| 0 <= i < j < s.len() ==> s[i] <= s[j]
}

/// Relies on itertools' `sorted`: the same items, in ascending order.
#[verifier::external_body]
pub(crate) fn sorted_ids(ids: Vec<usize>) -> (r: Vec<usize>)
    ensures
        r@.to_multiset() == ids@.to_multiset(),
        ascending(r@),
{
    ids.into_iter().sorted().collect()
}

/// The ids of `blocks`, in no particular order and without repeats.
fn collect_keys(blocks: &Blocks) -> (r: Vec<usize>)
    ensures
        r@.to_set() == blocks@.dom(),
        r@.no_duplicates(),
        r@.len() == blocks@.len(),
{
    let ghost ks = vstd::std_specs::hash::spec_keys_iter(blocks).remaining().unref();
    let mut r: Vec<usize> = Vec::new();
    for k in it: blocks.keys()
        invariant
            it.seq().unref() == ks,
            r@ == ks.take(it.index()),
    {
        r.push(*k);
        assert(r@ =~= ks.take(it.index() + 1));
    }
    assert(r@ =~= ks);
    r
}

/// The ids of `blocks` in strictly ascending order.
pub fn sorted_keys(blocks: &Blocks) -> (r: Vec<usize>)
    ensures
        strictly_ascending(r@),
        forall|k: usize| #[trigger] r@.contains(k) <==> blocks@.contains_key(k),
        r@.len() == blocks@.len(),
{
    let keys = collect_keys(blocks);
    let r = sorted_ids(keys);
    proof {
        broadcast use vstd::seq_lib::group_to_multiset_ensures;

        keys@.lemma_multiset_has_no_duplicates();
        assert forall|x: usize| r@.to_multiset().contains(x) implies r@.to_multiset().count(x)
            == 1 by {}
        r@.lemma_multiset_has_no_duplicates_conv();
        assert(r@.len() == r@.to_multiset().len());
        assert(keys@.len() == keys@.to_multiset().len());
        assert forall|k: usize| #[trigger] r@.contains(k) <==> blocks@.contains_key(k) by {
            assert(r@.contains(k) <==> r@.to_multiset().count(k) > 0);
            assert(keys@.contains(k) <==> keys@.to_multiset().count(k) > 0);
            assert(keys@.contains(k) <==> keys@.to_set().contains(k));
        }
    }
    r
}


/// `b` is the boundary block of a block with id `id` and depth `d`: the first
/// later block whose depth is at most `d` (its next sibling, or the next
/// sibling of an ancestor).
pub open spec fn is_boundary(m: Map<usize, Block>, id: usize, d: usize, b: usize) -> bool {
    &&& m.contains_key(b)
    &&& id < b
    &&& m[b].depth <= d
    &&& forall|k: usize| #[trigger] m.contains_key(k) && id < k < b ==> m[k].depth > d
}

/// No block after `id` has depth at most `d`.
pub open spec fn no_boundary(m: Map<usize, Block>, id: usize, d: usize) -> bool {
    forall|k: usize| #[trigger] m.contains_key(k) && id < k ==> m[k].depth > d
}

/// `r` is the boundary block, or `None` when there is none.
pub open spec fn boundary_result(m: Map<usize, Block>, id: usize, d: usize, r: Option<usize>) -> bool {
    match r {
        Some(b) => is_boundary(m, id, d, b),
        None => no_boundary(m, id, d),
    }
}

/// `p` is a block before `id` whose depth is less than `d`.
pub open spec fn is_parent_candidate(m: Map<usize, Block>, id: usize, d: usize, p: usize) -> bool {
    m.contains_key(p) && p < id && m[p].depth < d
}

/// `p` is the nearest block before `id` whose depth is less than `d`.
pub open spec fn is_immediate_parent(m: Map<usize, Block>, id: usize, d: usize, p: usize) -> bool {
    is_parent_candidate(m, id, d, p) && forall|k: usize|
        #[trigger] is_parent_candidate(m, id, d, k) ==> k <= p
}

/// The nearest block before `id` whose depth is less than `d`, if any.
pub open spec fn immediate_parent_of(m: Map<usize, Block>, id: usize, d: usize) -> Option<usize> {
    if exists|p: usize| is_immediate_parent(m, id, d, p) {
        Some(choose|p: usize| is_immediate_parent(m, id, d, p))
    } else {
        None
    }
}

/// Walk up from `id` at depth `depth`, one nearest parent at a time, the
/// depth going down by one at each step, until the depth is 1; the last
/// parent reached, or `None` where a step finds none.
pub open spec fn root_walk(m: Map<usize, Block>, id: usize, depth: usize, last: Option<usize>) -> Option<usize>
    decreases depth,
{
    if depth <= 1 {
        last
    } else {
        match immediate_parent_of(m, id, depth) {
            Some(p) => root_walk(m, p, (depth - 1) as usize, Some(p)),
            None => None,
        }
    }
}

/// The block with id `k`.
pub fn block_at(blocks: &Blocks, k: usize) -> (r: &Block)
    requires
        blocks@.contains_key(k),
    ensures
        *r == blocks@[k],
{
    blocks.get(&k).unwrap()
}

/// The first key of `keys[from..]` after `id` whose block has depth at most `d`.
pub(crate) fn first_at_most(blocks: &Blocks, keys: &Vec<usize>, from: usize, id: usize, d: usize) -> (r: Option<usize>)
    requires
        strictly_ascending(keys@),
        forall|k: usize| #[trigger] keys@.contains(k) <==> blocks@.contains_key(k),
        from <= keys@.len(),
        forall|j: int| 0 <= j < from ==> keys@[j] <= id,
    ensures
        boundary_result(blocks@, id, d, r),
{
    let mut j: usize = from;
    while j < keys.len()
        invariant
            strictly_ascending(keys@),
            forall|k: usize| #[trigger] keys@.contains(k) <==> blocks@.contains_key(k),
            from <= j <= keys@.len(),
            forall|i: int| 0 <= i < from ==> keys@[i] <= id,
            forall|i: int|
                from <= i < j && keys@[i] > id ==> blocks@[#[trigger] keys@[i]].depth > d,
        decreases keys@.len() - j,
    {
        let k = keys[j];
        assert(keys@.contains(k));
        if k > id && block_at(blocks, k).depth <= d {
            assert forall|q: usize| #[trigger] blocks@.contains_key(q) && id < q < k implies blocks@[q].depth > d by {
                assert(keys@.contains(q));
                let i = keys@.index_of(q);
                if i >= j {
                    assert(keys@[j as int] < keys@[i]);
                }
            }
            return Some(k);
        }
        j = j + 1;
    }
    assert forall|q: usize| #[trigger] blocks@.contains_key(q) && id < q implies blocks@[q].depth > d by {
        assert(keys@.contains(q));
        let i = keys@.index_of(q);
    }
    None
}

/// Relies on `usize`'s `FromStr`: a decimal number, with an optional leading `+`.
#[verifier::external_body]
fn parse_usize(s: &str) -> (r: Option<usize>)
    ensures
        r == parsed_usize(s@),
{
    s.parse::<usize>().ok()
}

pub open spec fn is_digit(c: char) -> bool {
    '0' <= c && c <= '9'
}

/// The value of the decimal digits `s`.
pub open spec fn decimal_value(s: Seq<char>) -> nat
    decreases s.len(),
{
    if s.len() == 0 {
        0
    } else {
        (decimal_value(s.drop_last()) * 10 + (s.last() as int - '0' as int)) as nat
    }
}

/// What `str::parse::<usize>` makes of `s`: its digits, after an optional `+`,
/// as a number, when there is at least one, all are decimal digits, and the
/// number fits.
pub open spec fn parsed_usize(s: Seq<char>) -> Option<usize> {
    let d = if s.len() > 0 && s[0] == '+' {
        s.drop_first()
    } else {
        s
    };
    if d.len() > 0 && (forall|i: int| 0 <= i < d.len() ==> is_digit(#[trigger] d[i]))
        && decimal_value(d) <= usize::MAX {
        Some(decimal_value(d) as usize)
    } else {
        None
    }
}

/// The id just before `id`, when it is a key of `m`.
pub open spec fn previous_id_of(m: Map<usize, Block>, id: usize) -> Option<usize> {
    if id == 0 || !m.contains_key((id - 1) as usize) {
        None
    } else {
        Some((id - 1) as usize)
    }
}

fn previous_id(blocks: &Blocks, id: usize) -> (r: Option<usize>)
    ensures
        r == previous_id_of(blocks@, id),
{
    if id == 0 {
        return None;
    }
    let previous = id - 1;
    if !blocks.contains_key(&previous) {
        return None;
    }
    Some(previous)
}

/// Queries on the block set.
pub struct BlockUtils {}

impl BlockUtils {
    /// The nearest block before `current_block_id` whose depth is less than
    /// `current_block_depth`.
    pub fn get_immediate_parent(blocks: &Blocks, current_block_id: &usize, current_block_depth: &usize) -> (r: Option<usize>)
        ensures
            r == immediate_parent_of(blocks@, *current_block_id, *current_block_depth),
    {
        let keys = sorted_keys(blocks);
        let id = *current_block_id;
        let d = *current_block_depth;
        let mut j: usize = keys.len();
        while j > 0
            invariant
                id == *current_block_id,
                d == *current_block_depth,
                j <= keys@.len(),
                strictly_ascending(keys@),
                forall|k: usize| #[trigger] keys@.contains(k) <==> blocks@.contains_key(k),
                forall|i: int|
                    j <= i < keys@.len() ==> !is_parent_candidate(blocks@, id, d, #[trigger] keys@[i]),
            decreases j,
        {
            let k = keys[j - 1];
            assert(keys@.contains(k));
            if k < id && block_at(blocks, k).depth < d {
                proof {
                    assert(is_parent_candidate(blocks@, id, d, k));
                    assert forall|q: usize| #[trigger] is_parent_candidate(blocks@, id, d, q) implies q <= k by {
                        assert(keys@.contains(q));
                        let i = keys@.index_of(q);
                        if i < j - 1 {
                            assert(keys@[i] < keys@[j - 1]);
                        }
                    }
                    assert(is_immediate_parent(blocks@, id, d, k));
                    assert(exists|p: usize| is_immediate_parent(blocks@, id, d, p));
                    let c = choose|p: usize| is_immediate_parent(blocks@, id, d, p);
                    assert(c <= k && k <= c);
                }
                return Some(k);
            }
            j = j - 1;
        }
        proof {
            assert forall|p: usize| !is_immediate_parent(blocks@, id, d, p) by {
                if is_parent_candidate(blocks@, id, d, p) {
                    assert(keys@.contains(p));
                    let i = keys@.index_of(p);
                }
            }
        }
        None
    }

    /// Walk up through nearest parents, one level at a time, until depth 1
    /// (see `root_walk`).
    pub fn get_root_parent(blocks: &Blocks, current_block_id: &usize, current_block_depth: &usize) -> (r: Option<usize>)
        ensures
            r == root_walk(blocks@, *current_block_id, *current_block_depth, None),
    {
        let mut id = *current_block_id;
        let mut depth = *current_block_depth;
        let mut root_parent_id: Option<usize> = None;
        while depth > 1
            invariant
                root_walk(blocks@, id, depth, root_parent_id) == root_walk(
                    blocks@,
                    *current_block_id,
                    *current_block_depth,
                    None,
                ),
            decreases depth,
        {
            root_parent_id = Self::get_immediate_parent(blocks, &id, &depth);
            match root_parent_id {
                Some(p) => {
                    id = p;
                    depth = depth - 1;
                },
                None => {
                    return None;
                },
            }
        }
        root_parent_id
    }

    /// The ids of the blocks titled `title`, ascending.
    pub fn get_block_ids_by_title(blocks: &Blocks, title: &str) -> (r: Vec<usize>)
        ensures
            strictly_ascending(r@),
            forall|k: usize| #[trigger]
                r@.contains(k) <==> blocks@.contains_key(k) && blocks@[k].title@ == title@,
    {
        let wanted = title.to_owned();
        let keys = sorted_keys(blocks);
        let mut r: Vec<usize> = Vec::new();
        for j in 0..keys.len()
            invariant
                wanted@ == title@,
                strictly_ascending(keys@),
                forall|k: usize| #[trigger] keys@.contains(k) <==> blocks@.contains_key(k),
                strictly_ascending(r@),
                j == 0 ==> r@.len() == 0,
                j > 0 ==> forall|i: int| 0 <= i < r@.len() ==> r@[i] <= keys@[j - 1],
                forall|k: usize| #[trigger]
                    r@.contains(k) <==> keys@.take(j as int).contains(k) && blocks@[k].title@
                        == title@,
        {
            let k = keys[j];
            assert(keys@.contains(k));
            assert(keys@.take(j + 1) =~= keys@.take(j as int).push(k));
            let ghost old_r = r@;
            if block_at(blocks, k).title == wanted {
                r.push(k);
                assert(forall|x: usize| r@.contains(x) <==> old_r.contains(x) || x == k);
            }
        }
        proof {
            assert(keys@.take(keys@.len() as int) =~= keys@);
        }
        r
    }

    /// Whether `block_id` is in the set.
    pub fn has_block_id(blocks: &Blocks, block_id: &usize) -> (r: bool)
        ensures
            r == blocks@.contains_key(*block_id),
    {
        blocks.contains_key(block_id)
    }

    /// The id one less than the id written in `current_block_id`, when the
    /// set holds it.
    pub fn get_previous_block_id(blocks: &Blocks, current_block_id: &str) -> (r: Option<usize>)
        requires
            parsed_usize(current_block_id@) is Some,
        ensures
            r == previous_id_of(blocks@, parsed_usize(current_block_id@).unwrap()),
    {
        let id = parse_usize(current_block_id).unwrap();
        previous_id(blocks, id)
    }

    /// The first block after `current_block_id` whose depth equals
    /// `current_block_depth`.
    pub fn get_next_sibling_id(blocks: &Blocks, current_block_id: &usize, current_block_depth: &usize) -> (r: Option<usize>)
        ensures
            match r {
                Some(s) => blocks@.contains_key(s) && s > *current_block_id && blocks@[s].depth
                    == *current_block_depth && forall|k: usize| #[trigger]
                    blocks@.contains_key(k) && *current_block_id < k < s ==> blocks@[k].depth
                    != *current_block_depth,
                None => forall|k: usize| #[trigger]
                    blocks@.contains_key(k) && *current_block_id < k ==> blocks@[k].depth
                    != *current_block_depth,
            },
    {
        let keys = sorted_keys(blocks);
        let id = *current_block_id;
        let d = *current_block_depth;
        let mut j: usize = 0;
        while j < keys.len()
            invariant
                id == *current_block_id,
                d == *current_block_depth,
                strictly_ascending(keys@),
                forall|k: usize| #[trigger] keys@.contains(k) <==> blocks@.contains_key(k),
                j <= keys@.len(),
                forall|i: int|
                    0 <= i < j && keys@[i] > id ==> blocks@[#[trigger] keys@[i]].depth != d,
            decreases keys@.len() - j,
        {
            let k = keys[j];
            assert(keys@.contains(k));
            if k > id && block_at(blocks, k).depth == d {
                assert(blocks@.contains_key(k) && blocks@[k].depth == d);
                assert forall|q: usize| #[trigger] blocks@.contains_key(q) && id < q < k implies blocks@[q].depth != d by {
                    assert(keys@.contains(q));
                    let i = keys@.index_of(q);
                    if i >= j {
                        assert(keys@[j as int] < keys@[i]);
                    }
                }
                return Some(k);
            }
            j = j + 1;
        }
        assert forall|q: usize| #[trigger] blocks@.contains_key(q) && id < q implies blocks@[q].depth != d by {
            assert(keys@.contains(q));
            let i = keys@.index_of(q);
        }
        None
    }

    /// The boundary block of the block `current_block_id` at depth
    /// `current_block_depth`: its next sibling or next uncle.
    pub fn get_next_sibling_or_uncle_id(blocks: &Blocks, current_block_id: &usize, current_block_depth: &usize) -> (r: Option<usize>)
        ensures
            boundary_result(blocks@, *current_block_id, *current_block_depth, r),
    {
        let keys = sorted_keys(blocks);
        first_at_most(blocks, &keys, 0, *current_block_id, *current_block_depth)
    }

    /// The block just before the boundary block: the last descendant of
    /// `block_id`, or `block_id` itself when it has none.
    pub fn get_last_recursive_children_id_and_depth(blocks: &Blocks, block_id: &usize, block_depth: &usize) -> (r: Option<usize>)
        ensures
            match r {
                Some(q) => exists|b: usize|
                    is_boundary(blocks@, *block_id, *block_depth, b) && q == (b - 1) as usize
                        && b > 0 && blocks@.contains_key(q),
                None => no_boundary(blocks@, *block_id, *block_depth) || exists|b: usize|
                    is_boundary(blocks@, *block_id, *block_depth, b) && previous_id_of(blocks@, b)
                        is None,
            },
    {
        match Self::get_next_sibling_or_uncle_id(blocks, block_id, block_depth) {
            Some(b) => previous_id(blocks, b),
            None => None,
        }
    }
}

} // verus!
