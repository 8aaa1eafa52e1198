//! The engine: a source text, its block set, and the pipeline that turns the
//! reader's events into an outline.
use vstd::prelude::*;
use vstd::string::StringSliceAdditionalSpecFns;
use vstd::utf8::*;

use crate::block::{compute_hash, digest_of, Block, Blocks};
use crate::builder::{
    build_blocks, built_block, children_of, heading_depths, headings, lemma_children_after,
    lemma_headings_len, ReaderEvent,
};
use crate::outline::{child_ok, subtree_ok};
use crate::distribution::{dense_ids, distribute_all};
use crate::error::FreeoutError;
use crate::outline::{outline_matches, outline_ok, Outline};
use crate::position::{BlockRange, PositionUtils};
use crate::processor::{aggregate_all, process_all};
use crate::ranges::{headers_in_text, resolve_all};
use crate::statistics::WordsTarget;
use crate::tree::{block_at, sorted_keys, strictly_ascending, BlockUtils};

verus! {

broadcast use {vstd::std_specs::hash::group_hash_axioms, vstd::seq_lib::group_seq_properties};

/// What the caller asks of the pipeline.
#[derive(Clone, Copy)]
pub struct FreeoutOptions {
    /// Attach prose to blocks; without it blocks have no content, and so no
    /// hash and zero counts.
    pub include_content: bool,
    /// A word target for the whole document, shared down the tree.
    pub words_target: Option<WordsTarget>,
}

pub open spec fn default_options() -> FreeoutOptions {
    FreeoutOptions { include_content: true, words_target: None }
}

impl Default for FreeoutOptions {
    fn default() -> (r: Self)
        ensures
            r == default_options(),
    {
        FreeoutOptions { include_content: true, words_target: None }
    }
}

/// A document format: turns source text into headings and prose, in order.
pub trait ReaderTrait {
    fn read(&self, source: &str, options: &FreeoutOptions) -> Result<Vec<ReaderEvent>, FreeoutError>;

    /// A name for diagnostics.
    fn name(&self) -> &'static str {
        "Unknown Reader"
    }
}

/// A document and the block set made from it.
pub struct Freeout {
    pub text: String,
    pub blocks: Blocks,
    /// The byte index at which each line starts.
    pub line_starts: Vec<usize>,
    pub opt: FreeoutOptions,
}

/// The byte index at which each line of `b` starts.
pub open spec fn line_starts_of(b: Seq<u8>) -> Seq<usize>
    decreases b.len(),
{
    if b.len() == 0 {
        seq![0usize]
    } else if b.last() == 10u8 {
        line_starts_of(b.drop_last()).push(b.len() as usize)
    } else {
        line_starts_of(b.drop_last())
    }
}

proof fn lemma_line_starts_bounds(b: Seq<u8>)
    requires
        b.len() <= usize::MAX,
    ensures
        line_starts_of(b).len() >= 1,
        line_starts_of(b)[0] == 0,
        forall|i: int| 0 <= i < line_starts_of(b).len() ==> #[trigger] line_starts_of(b)[i] <= b.len(),
        forall|i: int| 1 <= i < line_starts_of(b).len() ==> #[trigger] line_starts_of(b)[i] >= 1 && b[line_starts_of(b)[i] - 1] == 10u8,
        forall|i: int, j: int| 0 <= i < j < line_starts_of(b).len() ==> line_starts_of(b)[i] < line_starts_of(b)[j],
    decreases b.len(),
{
    if b.len() > 0 {
        let p = b.drop_last();
        lemma_line_starts_bounds(p);
        let lp = line_starts_of(p);
        assert forall|i: int| 1 <= i < lp.len() implies b[lp[i] - 1] == 10u8 by {
            assert(b[lp[i] - 1] == p[lp[i] - 1]);
        }
    }
}

/// Block set `m` is what the builder makes of `events`.
pub open spec fn built_set(m: Map<usize, Block>, events: Seq<ReaderEvent>, include_content: bool) -> bool {
    &&& forall|k: usize| #[trigger] m.contains_key(k) <==> 1 <= k <= headings(events).len()
    &&& m.len() == headings(events).len()
    &&& forall|k: usize| #[trigger] m.contains_key(k) ==> m[k]@ == built_block(events, include_content, k as int)
}

/// The stages after the builder, in order: ranges, content, aggregates, and
/// the target when there is one.
pub open spec fn pipeline_of(m: Map<usize, Block>, bytes: Seq<u8>, target: Option<WordsTarget>) -> Map<usize, Block> {
    let aggregated = aggregate_all(process_all(resolve_all(m, bytes)));
    match target {
        Some(t) => distribute_all(aggregated, t.words),
        None => aggregated,
    }
}

/// Where the validator finds ids out of place: `expected` is the first id of
/// `1, 2, ...` that the ascending ids do not match, and `found` the id there.
pub open spec fn discontinuity_at(m: Map<usize, Block>, expected: usize, found: usize) -> bool {
    &&& expected >= 1
    &&& forall|k: usize| 1 <= k < expected ==> #[trigger] m.contains_key(k)
    &&& m.contains_key(found)
    &&& found != expected
    &&& forall|k: usize| #[trigger] m.contains_key(k) && k < found ==> 1 <= k < expected
}

proof fn lemma_ascending_gap(s: Seq<usize>, i: int, j: int)
    requires
        strictly_ascending(s),
        0 <= i <= j < s.len(),
    ensures
        s[j] >= s[i] + (j - i),
    decreases j - i,
{
    if i < j {
        lemma_ascending_gap(s, i, j - 1);
    }
}

/// Every header of `blocks` starts within `text`, on a char boundary.
fn headers_fit(blocks: &Blocks, text: &str) -> (r: bool)
    requires
        text.spec_bytes().len() <= usize::MAX,
    ensures
        r == headers_in_text(blocks@, text.spec_bytes()),
{
    let keys = sorted_keys(blocks);
    for i in 0..keys.len()
        invariant
            text.spec_bytes().len() <= usize::MAX,
            forall|k: usize| #[trigger] keys@.contains(k) <==> blocks@.contains_key(k),
            forall|j: int| 0 <= j < i ==> {
                let b = #[trigger] blocks@[keys@[j]];
                b.header_range.start.offset <= text.spec_bytes().len() && is_char_boundary(
                    text.spec_bytes(),
                    b.header_range.start.offset as int,
                )
            },
    {
        let k = keys[i];
        assert(keys@.contains(k));
        let offset = block_at(blocks, k).header_range.start.offset;
        if offset > text.len() || !text.is_char_boundary(offset) {
            return false;
        }
    }
    proof {
        assert forall|k: usize| #[trigger] blocks@.contains_key(k) implies blocks@[k].header_range.start.offset <= text.spec_bytes().len()
            && is_char_boundary(text.spec_bytes(), blocks@[k].header_range.start.offset as int) by {
            assert(keys@.contains(k));
            let j = keys@.index_of(k);
        }
    }
    true
}

/// A block set whose children are all held as `child_ok` says has sound subtrees.
proof fn lemma_subtrees_ok(m: Map<usize, Block>, k: usize)
    requires
        forall|j: usize, i: int| #[trigger] m.contains_key(j) && 0 <= i < m[j].children_ids@.len()
            ==> child_ok(m, j, #[trigger] m[j].children_ids@[i]),
        m.contains_key(k),
    ensures
        subtree_ok(m, k),
    decreases usize::MAX - k,
{
    assert forall|i: int| 0 <= i < m[k].children_ids@.len() implies child_ok(m, k, #[trigger] m[k].children_ids@[i])
        && subtree_ok(m, m[k].children_ids@[i]) by {
        let c = m[k].children_ids@[i];
        assert(child_ok(m, k, c));
        lemma_subtrees_ok(m, c);
    }
}

/// `b` has the tree shape of `a`: the same ids, parents and children.
pub open spec fn same_shape(a: Map<usize, Block>, b: Map<usize, Block>) -> bool {
    &&& a.dom() == b.dom()
    &&& forall|k: usize| #[trigger] a.contains_key(k) ==> b[k].id == a[k].id && b[k].parent_id
        == a[k].parent_id && b[k].children_ids == a[k].children_ids
}

/// The stages after the builder keep the tree shape.
pub(crate) proof fn lemma_pipeline_shape(m: Map<usize, Block>, bytes: Seq<u8>, target: Option<WordsTarget>)
    ensures
        same_shape(m, pipeline_of(m, bytes, target)),
{
    let m1 = resolve_all(m, bytes);
    let m2 = process_all(m1);
    let m3 = aggregate_all(m2);
    assert(m1.dom() =~= m.dom());
    assert(same_shape(m, m1));
    assert(m2.dom() =~= m.dom());
    assert(same_shape(m, m2));
    assert(m3.dom() =~= m.dom());
    assert(same_shape(m, m3));
    match target {
        Some(t) => {
            assert(distribute_all(m3, t.words).dom() =~= m.dom());
            assert(same_shape(m, distribute_all(m3, t.words)));
        },
        None => {},
    }
}

/// A block set with the shape of a built one passes the outline assembler.
proof fn lemma_built_outline_ok(m: Map<usize, Block>, mf: Map<usize, Block>, events: Seq<ReaderEvent>, include_content: bool)
    requires
        built_set(m, events, include_content),
        same_shape(m, mf),
        events.len() < usize::MAX,
    ensures
        outline_ok(mf),
{
    lemma_headings_len(events);
    let ds = heading_depths(events);
    assert(ds.len() == headings(events).len());
    assert forall|j: usize, i: int| #[trigger] mf.contains_key(j) && 0 <= i < mf[j].children_ids@.len()
        implies child_ok(mf, j, #[trigger] mf[j].children_ids@[i]) by {
        assert(m[j]@ == built_block(events, include_content, j as int));
        let c = mf[j].children_ids@[i];
        assert(children_of(ds, j as int, ds.len() as int).contains(c));
        lemma_children_after(ds, j as int, ds.len() as int, c);
        assert(m.contains_key(c));
        assert(m[c]@ == built_block(events, include_content, c as int));
    }
    assert forall|k: usize| #[trigger] mf.contains_key(k) && mf[k].parent_id is None implies mf[k].id == k && subtree_ok(mf, k) by {
        assert(m[k]@ == built_block(events, include_content, k as int));
        lemma_subtrees_ok(mf, k);
    }
}

/// Relies on `HashMap::get_mut`: a mutable reference to the block under
/// `block_id`, when there is one.
#[verifier::external_body]
fn block_mut<'a>(blocks: &'a mut Blocks, block_id: &usize) -> (r: Option<&'a mut Block>)
    ensures
        r is Some <==> old(blocks)@.contains_key(*block_id),
{
    blocks.get_mut(block_id)
}

impl Freeout {
    /// The text.
    pub open spec fn text_view(&self) -> Seq<char> {
        self.text@
    }

    /// The UTF-8 bytes of the text.
    pub open spec fn text_bytes(&self) -> Seq<u8> {
        encode_utf8(self.text@)
    }

    /// The line starts match the text.
    pub open spec fn wf(&self) -> bool {
        &&& self.line_starts@ == line_starts_of(encode_utf8(self.text@))
        &&& encode_utf8(self.text@).len() <= usize::MAX
    }

    /// The options in force.
    pub open spec fn options(&self) -> FreeoutOptions {
        self.opt
    }

    /// An engine for `source`, with no blocks yet; without options, content
    /// is included and there is no target.
    pub fn new(source: String, opt: Option<FreeoutOptions>) -> (r: Freeout)
        ensures
            r.wf(),
            r.text_view() == source@,
            r.blocks@ == Map::<usize, Block>::empty(),
            r.options() == match opt {
                Some(o) => o,
                None => default_options(),
            },
    {
        let mut line_starts: Vec<usize> = Vec::new();
        line_starts.push(0);
        let bytes = source.as_str().as_bytes();
        let ghost b = encode_utf8(source@);
        for i in 0..bytes.len()
            invariant
                bytes@ == b,
                b == encode_utf8(source@),
                line_starts@ == line_starts_of(b.take(i as int)),
        {
            assert(b.take(i + 1).drop_last() =~= b.take(i as int));
            if bytes[i] == 10u8 {
                line_starts.push(i + 1);
            }
        }
        assert(b.take(bytes@.len() as int) =~= b);
        assert(b.len() == bytes.len());
        let opt = match opt {
            Some(o) => o,
            None => FreeoutOptions::default(),
        };
        Freeout { text: source, blocks: std::collections::HashMap::new(), line_starts, opt }
    }

    /// Line `line` of the text, without its line feed; `None` past the last
    /// line.
    pub fn get_line(&self, line: usize) -> (r: Option<&str>)
        requires
            self.wf(),
        ensures
            line >= line_starts_of(self.text_bytes()).len() ==> r is None,
            line < line_starts_of(self.text_bytes()).len() ==> {
                let ls = line_starts_of(self.text_bytes());
                let end = if line + 1 < ls.len() {
                    ls[line + 1] - 1
                } else {
                    self.text_bytes().len() as int
                };
                match r {
                    Some(s) => s.spec_bytes() == self.text_bytes().subrange(ls[line as int] as int, end),
                    None => !is_char_boundary(self.text_bytes(), ls[line as int] as int)
                        || !is_char_boundary(self.text_bytes(), end),
                }
            },
    {
        proof {
            lemma_line_starts_bounds(self.text_bytes());
        }
        if line >= self.line_starts.len() {
            return None;
        }
        let text = self.text.as_str();
        let start = self.line_starts[line];
        let end = if line + 1 < self.line_starts.len() {
            self.line_starts[line + 1] - 1
        } else {
            text.len()
        };
        if !text.is_char_boundary(start) || !text.is_char_boundary(end) {
            return None;
        }
        let range = BlockRange {
            start: crate::position::Position { line, column: 0, offset: start },
            end: crate::position::Position { line, column: end - start, offset: end },
        };
        Some(PositionUtils::get_text_by_range(text, &range))
    }

    /// The number of lines of the text.
    pub fn line_count(&self) -> (r: usize)
        requires
            self.wf(),
        ensures
            r == line_starts_of(self.text_bytes()).len(),
    {
        self.line_starts.len()
    }

    /// The text that `range` covers, when it lies within the text on char
    /// boundaries.
    pub fn get_content_by_range(&self, range: &BlockRange) -> (r: Option<&str>)
        requires
            self.wf(),
        ensures
            r is Some <==> range.start.offset <= range.end.offset <= self.text_bytes().len()
                && is_char_boundary(self.text_bytes(), range.start.offset as int)
                && is_char_boundary(self.text_bytes(), range.end.offset as int),
            r matches Some(s) ==> s.spec_bytes() == self.text_bytes().subrange(
                range.start.offset as int,
                range.end.offset as int,
            ),
    {
        let text = self.text.as_str();
        if range.start.offset <= range.end.offset && range.end.offset <= text.len()
            && text.is_char_boundary(range.start.offset) && text.is_char_boundary(range.end.offset) {
            Some(PositionUtils::get_text_by_range(text, range))
        } else {
            None
        }
    }

    /// The text of block `block_id` by its resolved range; `None` when the
    /// block is absent, its range is unresolved, or the range does not lie
    /// within the text on char boundaries.
    pub fn get_block_content(&self, block_id: &usize) -> (r: Option<&str>)
        requires
            self.wf(),
        ensures
            r is Some <==> self.blocks@.contains_key(*block_id) && match self.blocks@[*block_id].block_range {
                Some(range) => range.start.offset <= range.end.offset <= self.text_bytes().len()
                    && is_char_boundary(self.text_bytes(), range.start.offset as int)
                    && is_char_boundary(self.text_bytes(), range.end.offset as int),
                None => false,
            },
            r matches Some(s) ==> s.spec_bytes() == self.text_bytes().subrange(
                self.blocks@[*block_id].block_range.unwrap().start.offset as int,
                self.blocks@[*block_id].block_range.unwrap().end.offset as int,
            ),
    {
        if !self.blocks.contains_key(block_id) {
            return None;
        }
        let block = block_at(&self.blocks, *block_id);
        match &block.block_range {
            Some(range) => self.get_content_by_range(range),
            None => None,
        }
    }

    /// Set the hash of block `block_id` to the digest of its text (see
    /// `get_block_content`), and return it; `None`, and nothing changed, when
    /// there is no such text.
    pub fn compute_block_hash(&mut self, block_id: usize) -> (r: Option<u64>)
        requires
            old(self).wf(),
        ensures
            final(self).text_view() == old(self).text_view(),
            final(self).options() == old(self).options(),
            old(self).wf() ==> final(self).wf(),
            final(self).blocks@.dom() == old(self).blocks@.dom(),
            match r {
                None => final(self).blocks@ == old(self).blocks@,
                Some(h) => {
                    let range = old(self).blocks@[block_id].block_range.unwrap();
                    &&& old(self).blocks@.contains_key(block_id)
                    &&& old(self).blocks@[block_id].block_range is Some
                    &&& h == digest_of(decode_utf8(old(self).text_bytes().subrange(
                        range.start.offset as int,
                        range.end.offset as int,
                    )))
                    &&& final(self).blocks@ == old(self).blocks@.insert(
                        block_id,
                        Block { hash: Some(h), ..old(self).blocks@[block_id] },
                    )
                },
            },
            (r is None) <==> old(self).get_block_content_spec(block_id) is None,
    {
        let value = match self.get_block_content(&block_id) {
            Some(content) => {
                proof {
                    broadcast use group_utf8_lib;

                    assert(content@ == decode_utf8(content.spec_bytes()));
                }
                compute_hash(content)
            },
            None => {
                return None;
            },
        };
        let mut block = self.blocks.remove(&block_id).unwrap();
        block.hash = Some(value);
        self.blocks.insert(block_id, block);
        Some(value)
    }

    /// Check that the block ids are exactly `1..=N`: taken in ascending order,
    /// the `i`-th must be `i`. The error names the first place where that
    /// fails (see `discontinuity_at`).
    pub fn validate_blocks(&self) -> (r: Result<(), FreeoutError>)
        ensures
            r is Ok <==> dense_ids(self.blocks@, self.blocks@.len() as usize),
            r matches Err(e) ==> e matches FreeoutError::IdDiscontinuity { expected, found }
                && discontinuity_at(self.blocks@, expected, found),
    {
        let keys = sorted_keys(&self.blocks);
        let n = keys.len();
        for i in 0..n
            invariant
                n == keys@.len() == self.blocks@.len(),
                strictly_ascending(keys@),
                forall|k: usize| #[trigger] keys@.contains(k) <==> self.blocks@.contains_key(k),
                forall|j: int| 0 <= j < i ==> #[trigger] keys@[j] == j + 1,
        {
            let k = keys[i];
            if k != i + 1 {
                proof {
                    assert forall|q: usize| 1 <= q < i + 1 implies #[trigger] self.blocks@.contains_key(q) by {
                        assert(keys@[q - 1] == q);
                        assert(keys@.contains(q));
                    }
                    assert(keys@.contains(k));
                    assert forall|q: usize| #[trigger] self.blocks@.contains_key(q) && q < k implies 1 <= q < i + 1 by {
                        assert(keys@.contains(q));
                        let j = keys@.index_of(q);
                        if j >= i {
                            lemma_ascending_gap(keys@, i as int, j);
                        }
                    }
                    if dense_ids(self.blocks@, self.blocks@.len() as usize) {
                        lemma_ascending_gap(keys@, 0, i as int);
                        lemma_ascending_gap(keys@, i as int, n - 1);
                        assert(keys@.contains(keys@[0]));
                        assert(keys@.contains(keys@[n - 1]));
                    }
                }
                return Err(FreeoutError::IdDiscontinuity { expected: i + 1, found: k });
            }
        }
        proof {
            assert forall|k: usize| #[trigger] self.blocks@.contains_key(k) <==> 1 <= k <= self.blocks@.len() as usize by {
                if 1 <= k <= n {
                    assert(keys@[k - 1] == k);
                    assert(keys@.contains(k));
                }
                if self.blocks@.contains_key(k) {
                    assert(keys@.contains(k));
                    let j = keys@.index_of(k);
                }
            }
        }
        Ok(())
    }

    /// The block under `block_id`, to change in place.
    pub fn get_block_mut(&mut self, block_id: &usize) -> (r: Option<&mut Block>)
        ensures
            r is Some <==> old(self).blocks@.contains_key(*block_id),
    {
        block_mut(&mut self.blocks, block_id)
    }

    /// Resolve the ranges, then fill in hashes and own counts from content.
    pub(crate) fn process_content(&mut self)
        requires
            old(self).wf(),
            headers_in_text(old(self).blocks@, old(self).text_bytes()),
        ensures
            final(self).text == old(self).text,
            final(self).line_starts == old(self).line_starts,
            final(self).opt == old(self).opt,
            final(self).blocks@ == process_all(resolve_all(old(self).blocks@, old(self).text_bytes())),
    {
        let ghost m0 = self.blocks@;
        BlockUtils::populate_block_ranges(&mut self.blocks, self.text.as_str());
        let ghost m1 = self.blocks@;
        assert(m1 =~= resolve_all(m0, self.text_bytes()));
        BlockUtils::process_block_contents(&mut self.blocks);
        assert(self.blocks@ =~= process_all(m1));
    }

    /// Run the pipeline on a reader's events: build the block set, validate
    /// it, resolve the ranges, fill in hashes and counts, aggregate, share the
    /// target when the options hold one, and assemble the outline. Fails when
    /// a header lies outside the text (or there are more events than ids);
    /// otherwise the outline is that of the processed set.
    pub fn outline_from_events(&mut self, events: &Vec<ReaderEvent>) -> (r: Result<Outline, FreeoutError>)
        requires
            old(self).wf(),
        ensures
            final(self).wf(),
            final(self).text == old(self).text,
            final(self).opt == old(self).opt,
            events@.len() == usize::MAX ==> r == Err::<Outline, FreeoutError>(FreeoutError::TooManyEvents),
            events@.len() < usize::MAX ==> exists|m: Map<usize, Block>|
                built_set(m, events@, old(self).opt.include_content) && if headers_in_text(
                    m,
                    old(self).text_bytes(),
                ) {
                    &&& final(self).blocks@ == pipeline_of(m, old(self).text_bytes(), old(self).opt.words_target)
                    &&& r matches Ok(o) && outline_matches(final(self).blocks@, o)
                } else {
                    r == Err::<Outline, FreeoutError>(FreeoutError::HeaderOutOfText)
                },
    {
        if events.len() == usize::MAX {
            return Err(FreeoutError::TooManyEvents);
        }
        let blocks = build_blocks(events, self.opt.include_content);
        self.blocks = blocks;
        let ghost m = self.blocks@;
        proof {
            lemma_headings_len(events@);
            assert(built_set(m, events@, self.opt.include_content));
            assert(dense_ids(m, m.len() as usize));
        }
        match self.validate_blocks() {
            Ok(()) => {},
            Err(e) => {
                return Err(e);
            },
        }
        if !headers_fit(&self.blocks, self.text.as_str()) {
            assert(built_set(m, events@, self.opt.include_content));
            return Err(FreeoutError::HeaderOutOfText);
        }
        self.process_content();
        let ghost m2 = self.blocks@;
        BlockUtils::aggregate_statistics(&mut self.blocks);
        assert(self.blocks@ =~= aggregate_all(m2));
        let ghost m3 = self.blocks@;
        proof {
            assert(m3.dom() =~= m.dom());
            assert(dense_ids(m3, m3.len() as usize));
        }
        match self.opt.words_target {
            Some(t) => {
                BlockUtils::distribute_target(&mut self.blocks, &t);
                assert(self.blocks@ =~= distribute_all(m3, t.words));
            },
            None => {},
        }
        let ghost mf = self.blocks@;
        assert(mf == pipeline_of(m, self.text_bytes(), self.opt.words_target));
        proof {
            lemma_pipeline_shape(m, self.text_bytes(), self.opt.words_target);
            lemma_built_outline_ok(m, mf, events@, self.opt.include_content);
        }
        Outline::build_outline(&self.blocks)
    }

    /// Read the text with `reader` and run the pipeline on what it finds
    /// (see `outline_from_events`); the reader's own error comes back as it is.
    pub fn outline<R: ReaderTrait>(&mut self, reader: &R) -> (r: Result<Outline, FreeoutError>)
        requires
            old(self).wf(),
        ensures
            final(self).wf(),
            final(self).text == old(self).text,
            final(self).opt == old(self).opt,
            r matches Ok(o) ==> outline_matches(final(self).blocks@, o),
    {
        let events = match reader.read(self.text.as_str(), &self.opt) {
            Ok(events) => events,
            Err(e) => {
                return Err(e);
            },
        };
        let ghost bytes = self.text_bytes();
        let count = events.len();
        let r = self.outline_from_events(&events);
        proof {
            if r is Ok {
                assert(count == events@.len());
                assert(self.text_bytes() == bytes);
                let m = choose|m: Map<usize, Block>|
                    built_set(m, events@, self.opt.include_content) && if headers_in_text(
                        m,
                        self.text_bytes(),
                    ) {
                        &&& self.blocks@ == pipeline_of(m, self.text_bytes(), self.opt.words_target)
                        &&& r matches Ok(o) && outline_matches(self.blocks@, o)
                    } else {
                        r == Err::<Outline, FreeoutError>(FreeoutError::HeaderOutOfText)
                    };
            }
        }
        r
    }

    /// The blocks of the current set as copies, in ascending id. No
    /// incremental algorithm is defined: the previous outline is not consulted
    /// and the whole set is returned.
    pub fn generate_incremental_outline(&self, _previous_outline: Option<Vec<Block>>) -> (r: Vec<Block>)
        ensures
            r@.len() == self.blocks@.len(),
            exists|ks: Seq<usize>|
                strictly_ascending(ks) && ks.len() == r@.len() && (forall|k: usize| #[trigger] ks.contains(k) <==> self.blocks@.contains_key(k))
                    && forall|i: int| 0 <= i < r@.len() ==> (#[trigger] r@[i])@ == self.blocks@[ks[i]]@,
    {
        let keys = sorted_keys(&self.blocks);
        let mut r: Vec<Block> = Vec::new();
        for i in 0..keys.len()
            invariant
                forall|k: usize| #[trigger] keys@.contains(k) <==> self.blocks@.contains_key(k),
                r@.len() == i,
                forall|j: int| 0 <= j < i ==> (#[trigger] r@[j])@ == self.blocks@[keys@[j]]@,
        {
            let k = keys[i];
            assert(keys@.contains(k));
            r.push(block_at(&self.blocks, k).snapshot());
        }
        r
    }

    /// Whether `get_block_content` finds text for `block_id`.
    pub open spec fn get_block_content_spec(&self, block_id: usize) -> Option<BlockRange> {
        if self.blocks@.contains_key(block_id) {
            match self.blocks@[block_id].block_range {
                Some(range) => if range.start.offset <= range.end.offset <= self.text_bytes().len()
                    && is_char_boundary(self.text_bytes(), range.start.offset as int)
                    && is_char_boundary(self.text_bytes(), range.end.offset as int) {
                    Some(range)
                } else {
                    None
                },
                None => None,
            }
        } else {
            None
        }
    }
}

} // verus!
