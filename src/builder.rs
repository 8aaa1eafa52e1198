//! The tree builder: ids, parents, children and content from the reader's
//! ordered sequence of headings and prose.
use vstd::prelude::*;
use vstd::string::StringExecFns;

use crate::block::{default_block, Block, BlockView, Blocks};
use crate::position::BlockRange;
use crate::statistics::WordStatistics;

verus! {

broadcast use {vstd::std_specs::hash::group_hash_axioms, vstd::seq_lib::group_seq_properties};

/// What a reader finds in a document, in document order.
pub enum ReaderEvent {
    /// A structural marker: a heading at `depth`.
    Heading { depth: usize, marker: String, title: String, header_range: BlockRange },
    /// Prose between markers.
    Content { text: String },
}

/// The ids and depths of the blocks made so far, in order.
pub struct PastBlocks {
    pub past_block_ids_and_depths: Vec<(usize, usize)>,
}

/// The id of the last entry of `s` whose depth is less than `depth`.
pub open spec fn parent_for_depth(s: Seq<(usize, usize)>, depth: usize) -> Option<usize>
    decreases s.len(),
{
    if s.len() == 0 {
        None
    } else if s.last().1 < depth {
        Some(s.last().0)
    } else {
        parent_for_depth(s.drop_last(), depth)
    }
}

impl PastBlocks {
    /// The most recent entry.
    pub fn last(&self) -> (r: Option<&(usize, usize)>)
        ensures
            self.past_block_ids_and_depths@.len() == 0 ==> r is None,
            self.past_block_ids_and_depths@.len() > 0 ==> r == Some(
                &self.past_block_ids_and_depths@.last(),
            ),
    {
        let n = self.past_block_ids_and_depths.len();
        if n == 0 {
            None
        } else {
            Some(&self.past_block_ids_and_depths[n - 1])
        }
    }

    /// Record a block.
    pub fn add_block(&mut self, id: usize, depth: usize)
        ensures
            final(self).past_block_ids_and_depths@ == old(self).past_block_ids_and_depths@.push(
                (id, depth),
            ),
    {
        self.past_block_ids_and_depths.push((id, depth));
    }

    /// The id of the most recent block shallower than `depth`.
    pub fn get_parent_id_for_depth(&self, depth: usize) -> (r: Option<usize>)
        ensures
            r == parent_for_depth(self.past_block_ids_and_depths@, depth),
    {
        let s = &self.past_block_ids_and_depths;
        let mut j: usize = s.len();
        assert(s@.take(j as int) =~= s@);
        while j > 0
            invariant
                s@ == self.past_block_ids_and_depths@,
                j <= s@.len(),
                parent_for_depth(s@, depth) == parent_for_depth(s@.take(j as int), depth),
            decreases j,
        {
            assert(s@.take(j as int).drop_last() =~= s@.take(j - 1));
            assert(s@.take(j as int).last() == s@[j - 1]);
            let (id, d) = s[j - 1];
            if d < depth {
                return Some(id);
            }
            j = j - 1;
        }
        None
    }

    /// The id of the next block: one more than the number recorded.
    pub fn get_new_id(&self) -> (r: usize)
        requires
            self.past_block_ids_and_depths@.len() < usize::MAX,
        ensures
            r == self.past_block_ids_and_depths@.len() + 1,
    {
        self.past_block_ids_and_depths.len() + 1
    }
}

/// Text with leading and trailing whitespace removed.
pub uninterp spec fn trimmed(s: Seq<char>) -> Seq<char>;

/// Relies on `str::trim`: `s` without its leading and trailing whitespace.
#[verifier::external_body]
fn trim_text(s: &str) -> (r: &str)
    ensures
        r@ == trimmed(s@),
{
    s.trim()
}

/// The headings among `ev`, in order.
pub open spec fn headings(ev: Seq<ReaderEvent>) -> Seq<ReaderEvent>
    decreases ev.len(),
{
    if ev.len() == 0 {
        Seq::empty()
    } else {
        let rest = headings(ev.drop_last());
        match ev.last() {
            ReaderEvent::Heading { .. } => rest.push(ev.last()),
            ReaderEvent::Content { .. } => rest,
        }
    }
}

pub open spec fn depth_of(e: ReaderEvent) -> usize {
    match e {
        ReaderEvent::Heading { depth, .. } => depth,
        ReaderEvent::Content { .. } => 0,
    }
}

/// The depths of the headings among `ev`: entry `k - 1` is the depth of block `k`.
pub open spec fn heading_depths(ev: Seq<ReaderEvent>) -> Seq<usize> {
    headings(ev).map_values(|e: ReaderEvent| depth_of(e))
}

/// Scanning blocks `j, j - 1, ..., 1` (depths `ds`), the first shallower than `d`.
pub open spec fn nearest_shallower(ds: Seq<usize>, d: usize, j: int) -> Option<usize>
    decreases j,
{
    if j <= 0 {
        None
    } else if ds[j - 1] < d {
        Some(j as usize)
    } else {
        nearest_shallower(ds, d, j - 1)
    }
}

/// The parent of block `k`: the nearest earlier block shallower than it.
pub open spec fn parent_of(ds: Seq<usize>, k: int) -> Option<usize> {
    nearest_shallower(ds, ds[k - 1], k - 1)
}

/// The children of block `k` among blocks `1..=n`, ascending.
pub open spec fn children_of(ds: Seq<usize>, k: int, n: int) -> Seq<usize>
    decreases n,
{
    if n <= 0 {
        Seq::empty()
    } else if parent_of(ds, n) == Some(k as usize) {
        children_of(ds, k, n - 1).push(n as usize)
    } else {
        children_of(ds, k, n - 1)
    }
}

/// `c` extended with prose `t`: `t` itself first, then on a new line, trimmed.
pub open spec fn with_prose(c: Option<Seq<char>>, t: Seq<char>) -> Option<Seq<char>> {
    match c {
        None => Some(t),
        Some(c) => Some(c + seq!['\n'] + trimmed(t)),
    }
}

/// The content of block `k` from the prose of `ev` that follows its heading
/// and precedes the next one.
pub open spec fn content_of(ev: Seq<ReaderEvent>, k: int) -> Option<Seq<char>>
    decreases ev.len(),
{
    if ev.len() == 0 {
        None
    } else {
        let before = content_of(ev.drop_last(), k);
        match ev.last() {
            ReaderEvent::Heading { .. } => before,
            ReaderEvent::Content { text } => if headings(ev.drop_last()).len() == k {
                with_prose(before, text@)
            } else {
                before
            },
        }
    }
}

/// Block `k` as the builder makes it from `ev`.
pub open spec fn built_block(ev: Seq<ReaderEvent>, include_content: bool, k: int) -> BlockView {
    let ds = heading_depths(ev);
    match headings(ev)[k - 1] {
        ReaderEvent::Heading { depth, marker, title, header_range } => BlockView {
            id: k as usize,
            depth,
            marker: marker@,
            title: title@,
            content: if include_content {
                content_of(ev, k)
            } else {
                None
            },
            parent_id: parent_of(ds, k),
            header_range,
            children_ids: children_of(ds, k, ds.len() as int),
            ..default_block()
        },
        ReaderEvent::Content { .. } => default_block(),
    }
}


proof fn lemma_headings_push(ev: Seq<ReaderEvent>, e: ReaderEvent)
    ensures
        headings(ev.push(e)) == match e {
            ReaderEvent::Heading { .. } => headings(ev).push(e),
            ReaderEvent::Content { .. } => headings(ev),
        },
        heading_depths(ev.push(e)) == match e {
            ReaderEvent::Heading { .. } => heading_depths(ev).push(depth_of(e)),
            ReaderEvent::Content { .. } => heading_depths(ev),
        },
{
    assert(ev.push(e).drop_last() =~= ev);
    let hs = headings(ev);
    match e {
        ReaderEvent::Heading { .. } => {
            assert(hs.push(e).map_values(|x: ReaderEvent| depth_of(x)) =~= hs.map_values(
                |x: ReaderEvent| depth_of(x),
            ).push(depth_of(e)));
        },
        ReaderEvent::Content { .. } => {},
    }
}

pub(crate) proof fn lemma_headings_len(ev: Seq<ReaderEvent>)
    ensures
        headings(ev).len() <= ev.len(),
        forall|j: int| 0 <= j < headings(ev).len() ==> (#[trigger] headings(ev)[j]) is Heading,
    decreases ev.len(),
{
    if ev.len() > 0 {
        lemma_headings_len(ev.drop_last());
    }
}

pub(crate) proof fn lemma_nearest_prefix(ds: Seq<usize>, x: usize, d: usize, j: int)
    requires
        j <= ds.len(),
        j <= usize::MAX,
    ensures
        nearest_shallower(ds.push(x), d, j) == nearest_shallower(ds, d, j),
        nearest_shallower(ds, d, j) matches Some(p) ==> 1 <= p <= j,
    decreases j,
{
    if j > 0 {
        lemma_nearest_prefix(ds, x, d, j - 1);
    }
}

proof fn lemma_past_parent(past: Seq<(usize, usize)>, ds: Seq<usize>, d: usize, j: int)
    requires
        0 <= j <= past.len() == ds.len(),
        forall|q: int| 0 <= q < past.len() ==> #[trigger] past[q] == ((q + 1) as usize, ds[q]),
    ensures
        parent_for_depth(past.take(j), d) == nearest_shallower(ds, d, j),
    decreases j,
{
    if j > 0 {
        assert(past.take(j).drop_last() =~= past.take(j - 1));
        lemma_past_parent(past, ds, d, j - 1);
    }
}

proof fn lemma_children_prefix(ds: Seq<usize>, x: usize, k: int, n: int)
    requires
        n <= ds.len(),
        n <= usize::MAX,
    ensures
        children_of(ds.push(x), k, n) == children_of(ds, k, n),
    decreases n,
{
    if n > 0 {
        lemma_children_prefix(ds, x, k, n - 1);
        lemma_nearest_prefix(ds, x, ds[n - 1], n - 1);
        assert(ds.push(x)[n - 1] == ds[n - 1]);
    }
}

proof fn lemma_children_none_yet(ds: Seq<usize>, k: int, n: int)
    requires
        n <= k <= usize::MAX,
        n <= ds.len(),
    ensures
        children_of(ds, k, n) == Seq::<usize>::empty(),
    decreases n,
{
    if n > 0 {
        lemma_children_none_yet(ds, k, n - 1);
        lemma_nearest_prefix(ds, 0, ds[n - 1], n - 1);
    }
}

proof fn lemma_no_content_yet(ev: Seq<ReaderEvent>, k: int)
    requires
        k > headings(ev).len(),
    ensures
        content_of(ev, k) is None,
    decreases ev.len(),
{
    if ev.len() > 0 {
        lemma_headings_len(ev.drop_last());
        assert(headings(ev.drop_last()).len() <= headings(ev).len()) by {
            match ev.last() {
                ReaderEvent::Heading { .. } => {},
                ReaderEvent::Content { .. } => {},
            }
        }
        lemma_no_content_yet(ev.drop_last(), k);
    }
}

/// Every child that the builder lists comes after its parent, among `1..=n`.
pub proof fn lemma_children_after(ds: Seq<usize>, k: int, n: int, x: usize)
    requires
        0 <= n <= ds.len(),
        n <= usize::MAX,
        0 <= k <= usize::MAX,
        children_of(ds, k, n).contains(x),
    ensures
        1 <= x <= n,
        k < x,
    decreases n,
{
    if n > 0 {
        lemma_nearest_prefix(ds, 0, ds[n - 1], n - 1);
        if children_of(ds, k, n - 1).contains(x) {
            lemma_children_after(ds, k, n - 1, x);
        } else {
            assert(x == n);
        }
    }
}

/// The children that the builder lists are in strictly ascending id.
pub proof fn lemma_children_ascending(ds: Seq<usize>, k: int, n: int)
    requires
        0 <= n <= ds.len(),
        n <= usize::MAX,
    ensures
        forall|i: int, j: int| 0 <= i < j < children_of(ds, k, n).len() ==> children_of(ds, k, n)[i] < children_of(ds, k, n)[j],
        forall|i: int| 0 <= i < children_of(ds, k, n).len() ==> children_of(ds, k, n)[i] <= n,
    decreases n,
{
    if n > 0 {
        lemma_children_ascending(ds, k, n - 1);
        let prev = children_of(ds, k, n - 1);
        if parent_of(ds, n) == Some(k as usize) {
            let c = prev.push(n as usize);
            assert(children_of(ds, k, n) == c);
            assert forall|i: int, j: int| 0 <= i < j < c.len() implies c[i] < c[j] by {
                if j == c.len() - 1 {
                    assert(c[i] == prev[i]);
                } else {
                    assert(c[i] == prev[i] && c[j] == prev[j]);
                }
            }
            assert forall|i: int| 0 <= i < c.len() implies c[i] <= n by {
                if i < prev.len() {
                    assert(c[i] == prev[i]);
                }
            }
        }
    }
}

fn copy_string(s: &String) -> (r: String)
    ensures
        r@ == s@,
{
    s.clone()
}

/// The block set that a reader's events describe: the `k`-th heading becomes
/// block `k`, its parent is the nearest earlier heading of smaller depth, its
/// children are the later headings that name it as parent, ascending, and,
/// when `include_content` holds, its content is the prose between it and the
/// next heading: the first piece as it is, each further one on a new line,
/// trimmed. Prose before the first heading is dropped.
pub fn build_blocks(events: &Vec<ReaderEvent>, include_content: bool) -> (r: Blocks)
    requires
        events@.len() < usize::MAX,
    ensures
        forall|k: usize| #[trigger] r@.contains_key(k) <==> 1 <= k <= headings(events@).len(),
        r@.len() == headings(events@).len(),
        forall|k: usize| #[trigger]
            r@.contains_key(k) ==> r@[k]@ == built_block(events@, include_content, k as int),
{
    let mut blocks: Blocks = std::collections::HashMap::new();
    let mut past = PastBlocks { past_block_ids_and_depths: Vec::new() };
    for i in 0..events.len()
        invariant
            events@.len() < usize::MAX,
            past.past_block_ids_and_depths@.len() == headings(events@.take(i as int)).len(),
            headings(events@.take(i as int)).len() <= i,
            blocks@.len() == headings(events@.take(i as int)).len(),
            forall|q: int| 0 <= q < past.past_block_ids_and_depths@.len() ==> #[trigger] past.past_block_ids_and_depths@[q] == ((q + 1) as usize, heading_depths(events@.take(i as int))[q]),
            forall|k: usize| #[trigger] blocks@.contains_key(k) <==> 1 <= k <= headings(events@.take(i as int)).len(),
            forall|k: usize| #[trigger]
                blocks@.contains_key(k) ==> blocks@[k]@ == built_block(events@.take(i as int), include_content, k as int),
    {
        let ghost ev = events@.take(i as int);
        let ghost ev2 = events@.take(i + 1);
        let ghost hs = headings(ev);
        let ghost ds = heading_depths(ev);
        let ghost h = hs.len();
        proof {
            assert(ev2 =~= ev.push(events@[i as int]));
            assert(ev2.drop_last() =~= ev);
            assert(ev2.last() == events@[i as int]);
            lemma_headings_push(ev, events@[i as int]);
            lemma_headings_len(ev);
            lemma_headings_len(ev2);
            assert(ds.len() == h);
        }
        match &events[i] {
            ReaderEvent::Heading { depth, marker, title, header_range } => {
                let id = past.get_new_id();
                let parent = past.get_parent_id_for_depth(*depth);
                let ghost ds2 = ds.push(*depth);
                proof {
                    assert(past.past_block_ids_and_depths@.take(h as int) =~= past.past_block_ids_and_depths@);
                    lemma_past_parent(past.past_block_ids_and_depths@, ds, *depth, h as int);
                    lemma_nearest_prefix(ds, *depth, *depth, h as int);
                    assert(ds2[h as int] == *depth);
                    assert(parent == parent_of(ds2, id as int));
                    assert(heading_depths(ev2) == ds2);
                }
                if let Some(p) = parent {
                    let ghost before = blocks@;
                    let mut pb = blocks.remove(&p).unwrap();
                    pb.children_ids.push(id);
                    blocks.insert(p, pb);
                    proof {
                        assert(blocks@ == before.insert(p, pb));
                        assert(blocks@.dom() =~= before.dom());
                    }
                }
                let block = Block {
                    id,
                    depth: *depth,
                    marker: copy_string(marker),
                    title: copy_string(title),
                    content: None,
                    note: None,
                    parent_id: parent,
                    header_range: *header_range,
                    block_range: None,
                    self_stats: WordStatistics::default(),
                    aggregate_stats: WordStatistics::default(),
                    exclude: false,
                    hash: None,
                    children_ids: Vec::new(),
                };
                proof {
                    assert(!blocks@.contains_key(id));
                    assert(blocks@.dom().finite());
                }
                blocks.insert(id, block);
                past.add_block(id, *depth);
                proof {
                    assert(headings(ev2) == hs.push(events@[i as int]));
                    assert forall|q: int| 0 <= q < past.past_block_ids_and_depths@.len() implies #[trigger] past.past_block_ids_and_depths@[q] == ((q + 1) as usize, heading_depths(ev2)[q]) by {}
                    assert forall|k: usize| #[trigger] blocks@.contains_key(k) implies blocks@[k]@ == built_block(ev2, include_content, k as int) by {
                        lemma_children_prefix(ds, *depth, k as int, h as int);
                        assert(content_of(ev2, k as int) == content_of(ev, k as int));
                        if k == id {
                            lemma_children_none_yet(ds2, k as int, id as int);
                            lemma_no_content_yet(ev, k as int);
                            assert(headings(ev2)[k - 1] == events@[i as int]);
                        } else {
                            assert(hs.push(events@[i as int])[k - 1] == hs[k - 1]);
                            lemma_nearest_prefix(ds, *depth, ds[k - 1], k - 1);
                            assert(ds2[k - 1] == ds[k - 1]);
                            assert(parent_of(ds2, k as int) == parent_of(ds, k as int));
                            assert(built_block(ev, include_content, k as int).children_ids == children_of(ds, k as int, h as int));
                            if parent == Some(k) {
                                assert(children_of(ds2, k as int, id as int) == children_of(ds2, k as int, h as int).push(id));
                            } else {
                                assert(children_of(ds2, k as int, id as int) == children_of(ds2, k as int, h as int));
                            }
                        }
                    }
                }
            },
            ReaderEvent::Content { text } => {
                if include_content {
                    match past.last() {
                        Some(entry) => {
                            let id = entry.0;
                            let ghost before = blocks@;
                            let mut b = blocks.remove(&id).unwrap();
                            let extended = match &b.content {
                                None => copy_string(text),
                                Some(c) => {
                                    let mut s = copy_string(c);
                                    proof {
                                        reveal_strlit("\n");
                                    }
                                    s.append("\n");
                                    s.append(trim_text(text));
                                    assert(s@ =~= c@ + seq!['\n'] + trimmed(text@));
                                    s
                                },
                            };
                            b.content = Some(extended);
                            blocks.insert(id, b);
                            proof {
                                assert(id == h);
                                assert(blocks@ == before.insert(id, b));
                                assert(blocks@.dom() =~= before.dom());
                            }
                        },
                        None => {},
                    }
                }
                proof {
                    assert(headings(ev2) == hs);
                    assert forall|k: usize| #[trigger] blocks@.contains_key(k) implies blocks@[k]@ == built_block(ev2, include_content, k as int) by {
                        if include_content {
                            if k == h {
                                assert(content_of(ev2, k as int) == with_prose(content_of(ev, k as int), text@));
                            } else {
                                assert(content_of(ev2, k as int) == content_of(ev, k as int));
                            }
                        }
                    }
                }
            },
        }
    }
    proof {
        assert(events@.take(events@.len() as int) =~= events@);
    }
    blocks
}

} // verus!
