use std::collections::HashMap;

use freeout::block::{compute_hash, Block};
use freeout::builder::{build_blocks, PastBlocks, ReaderEvent};
use freeout::error::FreeoutError;
use freeout::freeout::{Freeout, FreeoutOptions, ReaderTrait};
use freeout::outline::{Outline, OutlineItem};
use freeout::position::{BlockRange, Position, PositionUtils};
use freeout::statistics::{WordCount, WordStatistics, WordsTarget};
use freeout::tree::BlockUtils;

/// The events of a markdown text, one heading per line starting with `#`;
/// each heading's own text follows it as prose, as a markdown reader reports it.
fn events_of(text: &str) -> Vec<ReaderEvent> {
    let mut events = Vec::new();
    let mut offset = 0;
    for (line, raw) in text.split('\n').enumerate() {
        let hashes = raw.chars().take_while(|c| *c == '#').count();
        if hashes > 0 {
            let title = raw[hashes..].trim().to_string();
            events.push(ReaderEvent::Heading {
                depth: hashes,
                marker: "#".repeat(hashes),
                title: title.clone(),
                header_range: BlockRange {
                    start: Position { line, column: 0, offset },
                    end: Position { line, column: raw.len(), offset: offset + raw.len() },
                },
            });
            events.push(ReaderEvent::Content { text: title });
        } else if !raw.trim().is_empty() {
            events.push(ReaderEvent::Content { text: raw.to_string() });
        }
        offset += raw.len() + 1;
    }
    events
}

struct LineReader;

impl ReaderTrait for LineReader {
    fn read(&self, source: &str, _options: &FreeoutOptions) -> Result<Vec<ReaderEvent>, FreeoutError> {
        Ok(events_of(source))
    }

    fn name(&self) -> &'static str {
        "lines"
    }
}

struct FailingReader;

impl ReaderTrait for FailingReader {
    fn read(&self, _source: &str, _options: &FreeoutOptions) -> Result<Vec<ReaderEvent>, FreeoutError> {
        Err(FreeoutError::Format { message: "bad input".to_string() })
    }

    fn name(&self) -> &'static str {
        "failing"
    }
}

fn digest(text: &str) -> u64 {
    let bytes = blake3::hash(text.as_bytes());
    u64::from_le_bytes(bytes.as_bytes()[0..8].try_into().unwrap())
}

#[test]
fn title_with_two_paragraphs() {
    let markdown = "# Title 1\nOne two three four\n\nFive six seven eight\n## Title 2";
    let outline = Freeout::new(markdown.to_string(), None).outline(&LineReader).unwrap();

    assert_eq!(outline.items.len(), 1);
    let first = outline.items[0].block.clone();
    assert_eq!(first.title, "Title 1");
    let content = first.content.clone().unwrap();
    assert_eq!(content, "Title 1\nOne two three four\nFive six seven eight");
    assert_eq!(first.self_stats.count.words, 10);
    assert_eq!(first.hash, Some(digest(&content)));
    let range = first.block_range.unwrap();
    assert_eq!(range.start.offset, 0);
    assert_eq!(range.end.offset, markdown.len());
    assert_eq!(PositionUtils::get_text_by_range(markdown, &range), markdown);
    assert_eq!(outline.items[0].subitems.len(), 1);
    assert_eq!(outline.items[0].subitems[0].block.title, "Title 2");
}

#[test]
fn sibling_roots_meet() {
    let markdown = "# Header 1\n\n## Header 2\n\n# Header3";
    let mut freeout = Freeout::new(markdown.to_string(), None);
    let outline = freeout.outline(&LineReader).unwrap();

    assert_eq!(outline.items.len(), 2);
    let first_range = outline.items[0].block.block_range.unwrap();
    let last = &outline.items[1];
    assert_eq!(last.block.title, "Header3");
    let prior = PositionUtils::get_immediate_prior_position(markdown, &last.block.header_range.start);
    assert_eq!(first_range.end, prior);
    assert_eq!(prior, Position { line: 3, column: 0, offset: 24 });

    // The child ends where its uncle begins, too.
    let child_range = outline.items[0].subitems[0].block.block_range.unwrap();
    assert_eq!(child_range.end, prior);
    assert_eq!(child_range.start.offset, 12);
}

#[test]
fn thousands_of_depths() {
    let groups = 1600;
    let mut text = String::new();
    let mut events = Vec::new();
    for i in 0..groups {
        for depth in 0..5 {
            let line_start = text.len();
            let line = format!("{} Title {}", "#".repeat(depth), i);
            text.push_str(&line);
            text.push('\n');
            let number = i * 5 + depth;
            events.push(ReaderEvent::Heading {
                depth,
                marker: "#".repeat(depth),
                title: format!("Title {}", i),
                header_range: BlockRange {
                    start: Position { line: number, column: 0, offset: line_start },
                    end: Position { line: number, column: line.len(), offset: line_start + line.len() },
                },
            });
        }
    }
    let mut freeout = Freeout::new(text, Some(FreeoutOptions { include_content: true, ..Default::default() }));
    let outline = freeout.outline_from_events(&events).unwrap();
    assert!(freeout.validate_blocks().is_ok());
    assert_eq!(freeout.blocks.len(), groups * 5);
    assert_eq!(outline.items.len(), groups);
    for id in 1..=groups * 5 {
        assert!(freeout.blocks.get(&id).unwrap().block_range.is_some());
    }
}

#[test]
fn missing_first_id_is_reported() {
    let mut freeout = Freeout::new("fake".to_string(), None);
    let mut blocks = HashMap::new();
    blocks.insert(2, Block { id: 2, depth: 1, ..Default::default() });
    blocks.insert(3, Block { id: 3, depth: 2, ..Default::default() });
    freeout.blocks = blocks;
    assert_eq!(freeout.validate_blocks(), Err(FreeoutError::IdDiscontinuity { expected: 1, found: 2 }));
}

#[test]
fn validator_names_the_gap() {
    let mut freeout = Freeout::new("fake".to_string(), None);
    for id in [1, 2, 5, 6] {
        freeout.blocks.insert(id, Block { id, ..Default::default() });
    }
    assert_eq!(freeout.validate_blocks(), Err(FreeoutError::IdDiscontinuity { expected: 3, found: 5 }));
    let empty = Freeout::new("fake".to_string(), None);
    assert!(empty.validate_blocks().is_ok());
}

#[test]
fn builder_ids_parents_and_children() {
    let events = events_of("# A\n### B\n## C\n# D\ntext\n  more  ");
    let blocks = build_blocks(&events, true);
    assert_eq!(blocks.len(), 4);
    let a = blocks.get(&1).unwrap();
    let b = blocks.get(&2).unwrap();
    let c = blocks.get(&3).unwrap();
    let d = blocks.get(&4).unwrap();
    assert_eq!(a.parent_id, None);
    assert_eq!(b.parent_id, Some(1));
    assert_eq!(c.parent_id, Some(1));
    assert_eq!(d.parent_id, None);
    assert_eq!(a.children_ids, vec![2, 3]);
    assert!(b.children_ids.is_empty());
    assert_eq!(d.content.as_deref(), Some("D\ntext\nmore"));
    assert_eq!(d.marker, "#");
    assert_eq!(b.depth, 3);

    let without = build_blocks(&events, false);
    assert_eq!(without.get(&4).unwrap().content, None);
}

#[test]
fn builder_drops_prose_before_the_first_heading() {
    let events = vec![
        ReaderEvent::Content { text: "lost".to_string() },
        ReaderEvent::Heading {
            depth: 1,
            marker: "#".to_string(),
            title: "T".to_string(),
            header_range: BlockRange::default(),
        },
    ];
    let blocks = build_blocks(&events, true);
    assert_eq!(blocks.len(), 1);
    assert_eq!(blocks.get(&1).unwrap().content, None);
}

#[test]
fn past_blocks_find_the_nearest_shallower() {
    let mut past = PastBlocks { past_block_ids_and_depths: vec![] };
    assert_eq!(past.get_new_id(), 1);
    assert_eq!(past.last(), None);
    past.add_block(1, 1);
    past.add_block(2, 3);
    past.add_block(3, 2);
    assert_eq!(past.get_parent_id_for_depth(3), Some(3));
    assert_eq!(past.get_parent_id_for_depth(4), Some(3));
    assert_eq!(past.get_parent_id_for_depth(2), Some(1));
    assert_eq!(past.get_parent_id_for_depth(1), None);
    assert_eq!(past.last(), Some(&(3, 2)));
    assert_eq!(past.get_new_id(), 4);
}

#[test]
fn content_stage_is_idempotent() {
    let mut blocks = HashMap::new();
    blocks.insert(1, Block { id: 1, content: Some("alpha beta".to_string()), ..Default::default() });
    blocks.insert(2, Block { id: 2, content: Some("gamma".to_string()), hash: Some(7), ..Default::default() });
    blocks.insert(3, Block { id: 3, ..Default::default() });
    BlockUtils::process_block_contents(&mut blocks);
    assert_eq!(blocks.get(&1).unwrap().hash, Some(digest("alpha beta")));
    assert_eq!(blocks.get(&1).unwrap().self_stats.count, WordCount { words: 2, characters: 10 });
    assert_eq!(blocks.get(&2).unwrap().hash, Some(7));
    assert_eq!(blocks.get(&2).unwrap().self_stats.count.words, 1);
    assert_eq!(blocks.get(&3).unwrap().hash, None);
    assert_eq!(blocks.get(&3).unwrap().self_stats.count.words, 0);
    let first: Vec<(Option<u64>, WordCount)> =
        (1..=3).map(|k| (blocks.get(&k).unwrap().hash, blocks.get(&k).unwrap().self_stats.count)).collect();
    BlockUtils::process_block_contents(&mut blocks);
    let second: Vec<(Option<u64>, WordCount)> =
        (1..=3).map(|k| (blocks.get(&k).unwrap().hash, blocks.get(&k).unwrap().self_stats.count)).collect();
    assert_eq!(first, second);
}

fn counted_block(id: usize, parent: Option<usize>, children: Vec<usize>, words: usize, exclude: bool) -> Block {
    Block {
        id,
        parent_id: parent,
        children_ids: children,
        exclude,
        self_stats: WordStatistics::new(WordCount { words, characters: words * 5 }),
        ..Default::default()
    }
}

#[test]
fn aggregates_skip_excluded_children() {
    let mut blocks = HashMap::new();
    blocks.insert(1, counted_block(1, None, vec![2, 3, 4], 10, false));
    blocks.insert(2, counted_block(2, Some(1), vec![], 20, false));
    blocks.insert(3, counted_block(3, Some(1), vec![5], 30, true));
    blocks.insert(4, counted_block(4, Some(1), vec![], 40, false));
    blocks.insert(5, counted_block(5, Some(3), vec![], 50, false));
    BlockUtils::aggregate_statistics(&mut blocks);
    let agg = |k: usize| blocks.get(&k).unwrap().aggregate_stats.count;
    assert_eq!(agg(5), WordCount { words: 50, characters: 250 });
    assert_eq!(agg(3), WordCount { words: 80, characters: 400 });
    assert_eq!(agg(1), WordCount { words: 70, characters: 350 });
    assert_eq!(agg(2).words, 20);
}

#[test]
fn aggregates_saturate() {
    let mut blocks = HashMap::new();
    let mut big = counted_block(1, None, vec![2], 0, false);
    big.self_stats.count.words = usize::MAX - 1;
    blocks.insert(1, big);
    blocks.insert(2, counted_block(2, Some(1), vec![], 5, false));
    BlockUtils::aggregate_statistics(&mut blocks);
    assert_eq!(blocks.get(&1).unwrap().aggregate_stats.count.words, usize::MAX);
    assert_eq!(blocks.get(&1).unwrap().aggregate_stats.count.characters, 25);
}

fn with_aggregate(mut b: Block, words: usize) -> Block {
    b.aggregate_stats.count.words = words;
    b
}

#[test]
fn target_is_shared_with_overruns_absorbed() {
    let mut blocks = HashMap::new();
    blocks.insert(1, with_aggregate(counted_block(1, None, vec![], 0, false), 300));
    blocks.insert(2, with_aggregate(counted_block(2, None, vec![4, 5], 0, false), 100));
    blocks.insert(3, with_aggregate(counted_block(3, None, vec![], 0, false), 0));
    blocks.insert(4, with_aggregate(counted_block(4, Some(2), vec![], 0, false), 70));
    blocks.insert(5, with_aggregate(counted_block(5, Some(2), vec![], 0, false), 30));
    let target = WordsTarget { words: 500, distribution: None };
    BlockUtils::distribute_target(&mut blocks, &target);

    let status = |k: usize| blocks.get(&k).unwrap().aggregate_stats.status.unwrap();
    let nominal = |k: usize| blocks.get(&k).unwrap().aggregate_stats.target.unwrap().words;
    assert_eq!(nominal(1), 166);
    assert_eq!(status(1).adjusted_target, Some(166));
    assert_eq!(status(1).balance, 134);
    assert_eq!(status(2).adjusted_target, Some(100));
    assert_eq!(status(2).balance, 0);
    assert_eq!(status(3).adjusted_target, Some(100));
    assert_eq!(status(3).balance, -100);
    // Block 2's adjusted target of 100 is shared by its two children.
    assert_eq!(nominal(4), 50);
    assert_eq!(status(4).adjusted_target, Some(50));
    assert_eq!(status(4).balance, 20);
    assert_eq!(status(5).adjusted_target, Some(30));
    assert_eq!(status(5).balance, 0);
}

#[test]
fn target_skips_excluded_blocks() {
    let mut blocks = HashMap::new();
    blocks.insert(1, with_aggregate(counted_block(1, None, vec![], 0, true), 300));
    blocks.insert(2, with_aggregate(counted_block(2, None, vec![], 0, false), 10));
    blocks.insert(3, with_aggregate(counted_block(3, None, vec![], 0, false), 0));
    BlockUtils::distribute_target(&mut blocks, &WordsTarget { words: 101, distribution: None });
    assert!(blocks.get(&1).unwrap().aggregate_stats.status.is_none());
    let status = |k: usize| blocks.get(&k).unwrap().aggregate_stats.status.unwrap();
    assert_eq!(status(2).adjusted_target, Some(50));
    assert_eq!(status(3).adjusted_target, Some(91));
}

#[test]
fn outline_sorts_children_by_id() {
    let mut blocks = HashMap::new();
    blocks.insert(1, Block { id: 1, children_ids: vec![3, 2], ..Default::default() });
    blocks.insert(2, Block { id: 2, parent_id: Some(1), ..Default::default() });
    blocks.insert(3, Block { id: 3, parent_id: Some(1), ..Default::default() });
    blocks.insert(4, Block { id: 4, ..Default::default() });
    let outline = Outline::build_outline(&blocks).unwrap();
    let roots: Vec<usize> = outline.items.iter().map(|i| i.block.id).collect();
    assert_eq!(roots, vec![1, 4]);
    let children: Vec<usize> = outline.items[0].subitems.iter().map(|i| i.block.id).collect();
    assert_eq!(children, vec![2, 3]);
    let item = OutlineItem::from_block(blocks.get(&1).unwrap(), &blocks).unwrap();
    assert_eq!(item.subitems.len(), 2);
}

#[test]
fn outline_fails_on_a_missing_child() {
    let mut blocks = HashMap::new();
    blocks.insert(1, Block { id: 1, children_ids: vec![2, 9], ..Default::default() });
    blocks.insert(2, Block { id: 2, parent_id: Some(1), ..Default::default() });
    assert_eq!(Outline::build_outline(&blocks).err(), Some(FreeoutError::MissingChild { parent: 1, child: 9 }));
}

#[test]
fn outline_fails_on_a_root_under_another_key() {
    let mut blocks = HashMap::new();
    blocks.insert(1, Block { id: 5, ..Default::default() });
    assert_eq!(Outline::build_outline(&blocks).err(), Some(FreeoutError::IdMismatch { key: 1, found: 5 }));
}

#[test]
fn reader_errors_come_back() {
    let mut freeout = Freeout::new("# A".to_string(), None);
    assert_eq!(
        freeout.outline(&FailingReader).err(),
        Some(FreeoutError::Format { message: "bad input".to_string() })
    );
    assert_eq!(FailingReader.name(), "failing");
}

#[test]
fn headers_outside_the_text_fail() {
    let events = vec![ReaderEvent::Heading {
        depth: 1,
        marker: "#".to_string(),
        title: "far".to_string(),
        header_range: BlockRange {
            start: Position { line: 9, column: 0, offset: 99 },
            end: Position { line: 9, column: 3, offset: 102 },
        },
    }];
    let mut freeout = Freeout::new("short".to_string(), None);
    assert_eq!(freeout.outline_from_events(&events).err(), Some(FreeoutError::HeaderOutOfText));
}

#[test]
fn outline_with_a_target() {
    let markdown = "# A\none two three\n# B\nfour";
    let options = FreeoutOptions { include_content: true, words_target: Some(WordsTarget { words: 10, distribution: None }) };
    let mut freeout = Freeout::new(markdown.to_string(), Some(options));
    let outline = freeout.outline(&LineReader).unwrap();
    let a = &outline.items[0].block;
    let b = &outline.items[1].block;
    assert_eq!(a.self_stats.count.words, 4);
    assert_eq!(a.aggregate_stats.count.words, 4);
    assert_eq!(a.aggregate_stats.status.unwrap().adjusted_target, Some(5));
    assert_eq!(b.aggregate_stats.status.unwrap().adjusted_target, Some(6));
    assert_eq!(b.aggregate_stats.status.unwrap().balance, -4);
}

#[test]
fn hashes_and_counts_come_from_the_outside_crates() {
    assert_eq!(compute_hash("abc"), digest("abc"));
    assert_eq!(compute_hash(""), 0xa6a1f9f5b94913af);
    let stats = WordStatistics::calculate("One two three");
    assert_eq!(stats.count, WordCount { words: 3, characters: 13 });
    let mut block = Block { title: "Title".to_string(), ..Default::default() };
    block.hash();
    assert_eq!(block.hash, Some(digest("Title")));
}

#[test]
fn statistics_update_against_targets() {
    let mut stats = WordStatistics::new(WordCount { words: 120, characters: 600 });
    stats.update();
    assert_eq!(stats.status, None);
    stats.target = Some(WordsTarget { words: 100, distribution: None });
    stats.update();
    assert_eq!(stats.status.unwrap().balance, 20);
    stats.status.as_mut().unwrap().adjusted_target = Some(150);
    stats.update();
    assert_eq!(stats.status.unwrap().balance, -30);
    let mut counted = WordStatistics::default();
    counted.count("a b");
    assert_eq!(counted.count.words, 2);
}

#[test]
fn lines_and_content_by_range() {
    let mut freeout = Freeout::new("# A\nbody\n# B".to_string(), None);
    assert_eq!(freeout.line_count(), 3);
    assert_eq!(freeout.get_line(0), Some("# A"));
    assert_eq!(freeout.get_line(1), Some("body"));
    assert_eq!(freeout.get_line(2), Some("# B"));
    assert_eq!(freeout.get_line(3), None);
    let range = BlockRange {
        start: Position { line: 1, column: 0, offset: 4 },
        end: Position { line: 1, column: 4, offset: 8 },
    };
    assert_eq!(freeout.get_content_by_range(&range), Some("body"));
    let beyond = BlockRange { start: Position::default(), end: Position { line: 0, column: 0, offset: 99 } };
    assert_eq!(freeout.get_content_by_range(&beyond), None);

    freeout.outline(&LineReader).unwrap();
    assert_eq!(freeout.get_block_content(&1), Some("# A\nbody"));
    assert_eq!(freeout.get_block_content(&7), None);
    assert_eq!(freeout.compute_block_hash(1), Some(digest("# A\nbody")));
    assert_eq!(freeout.blocks.get(&1).unwrap().hash, Some(digest("# A\nbody")));
    assert_eq!(freeout.compute_block_hash(7), None);
    let all = freeout.generate_incremental_outline(None);
    let ids: Vec<usize> = all.iter().map(|b| b.id).collect();
    assert_eq!(ids, vec![1, 2]);
}
