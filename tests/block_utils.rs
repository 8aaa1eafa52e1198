use std::collections::HashMap;

use freeout::block::Block;
use freeout::freeout::Freeout;
use freeout::tree::BlockUtils;

fn get_test_blocks() -> HashMap<usize, Block> {
    let mut blocks: HashMap<usize, Block> = HashMap::new();

    let grandma = Block { id: 1, depth: 1, children_ids: vec![2], title: "grandma".to_string(), ..Default::default() };
    let bobo = Block { id: 2, depth: 2, children_ids: vec![3], title: "bobo".to_string(), ..Default::default() };
    let tang_ge = Block { id: 3, depth: 3, children_ids: vec![], title: "tang_ge".to_string(), ..Default::default() };
    let dad = Block { id: 4, depth: 2, children_ids: vec![7, 8, 12], title: "dad".to_string(), ..Default::default() };
    let shushu = Block { id: 5, depth: 2, children_ids: vec![6], title: "shushu".to_string(), ..Default::default() };
    let tang_di = Block { id: 6, depth: 3, children_ids: vec![], title: "tang_di".to_string(), ..Default::default() };
    let my_older_sister = Block { id: 7, depth: 3, children_ids: vec![], title: "my_older_sister".to_string(), ..Default::default() };
    let me = Block { id: 8, depth: 3, children_ids: vec![9, 10], title: "me".to_string(), ..Default::default() };
    let my_first_child = Block { id: 9, depth: 4, children_ids: vec![], title: "my_first_child".to_string(), ..Default::default() };
    let my_second_child = Block { id: 10, depth: 4, children_ids: vec![11], title: "my_second_child".to_string(), ..Default::default() };
    let my_second_child_first_grand_child = Block {
        id: 11,
        depth: 5,
        children_ids: vec![],
        title: "my_second_child_first_grand_child".to_string(),
        ..Default::default()
    };
    let my_younger_sister = Block { id: 12, depth: 3, children_ids: vec![], title: "my_younger_sister".to_string(), ..Default::default() };

    let tests_cases = vec![
        grandma,
        bobo,
        tang_ge,
        dad,
        shushu,
        tang_di,
        my_older_sister,
        me,
        my_first_child,
        my_second_child,
        my_second_child_first_grand_child,
        my_younger_sister,
    ];

    assert_eq!(tests_cases.len(), 12);

    for test_case in tests_cases {
        blocks.insert(test_case.id, test_case);
    }

    blocks
}

#[test]
fn test_get_block_by_relation() {
    let _freeout = Freeout::new("fake".to_string(), None);

    let blocks = &get_test_blocks();

    let grandma_id = BlockUtils::get_block_ids_by_title(blocks, "grandma")[0];
    let bobo_id = BlockUtils::get_block_ids_by_title(blocks, "bobo")[0];
    let previous_block_to_bobo = BlockUtils::get_previous_block_id(blocks, &bobo_id.to_string());
    assert_eq!(previous_block_to_bobo, Some(grandma_id));

    let my_id = BlockUtils::get_block_ids_by_title(blocks, "me")[0];
    let my_younger_sister_id = BlockUtils::get_block_ids_by_title(blocks, "my_younger_sister")[0];
    let next_sibling_id = BlockUtils::get_next_sibling_id(blocks, &my_id, &3);
    assert_eq!(next_sibling_id, Some(my_younger_sister_id));

    let my_first_child_id = BlockUtils::get_block_ids_by_title(blocks, "my_first_child")[0];
    let my_second_child_id = BlockUtils::get_block_ids_by_title(blocks, "my_second_child")[0];

    let my_second_child_next_sibling_or_uncle_id =
        BlockUtils::get_next_sibling_or_uncle_id(blocks, &my_second_child_id, &4);
    assert_eq!(my_second_child_next_sibling_or_uncle_id, Some(my_younger_sister_id));

    let my_second_child_first_grand_child_id =
        BlockUtils::get_block_ids_by_title(blocks, "my_second_child_first_grand_child")[0];

    let my_first_child_next_sibling_or_uncle_id =
        BlockUtils::get_next_sibling_or_uncle_id(blocks, &my_first_child_id, &4);
    assert_eq!(my_first_child_next_sibling_or_uncle_id, Some(my_second_child_id));

    let my_last_recursive_child_id = BlockUtils::get_last_recursive_children_id_and_depth(blocks, &my_id, &3);
    assert_eq!(my_last_recursive_child_id, Some(my_second_child_first_grand_child_id));

    let immediate_parent = BlockUtils::get_immediate_parent(blocks, &my_second_child_first_grand_child_id, &5);
    assert_eq!(immediate_parent, Some(my_second_child_id));

    let root_parent = BlockUtils::get_root_parent(blocks, &my_second_child_first_grand_child_id, &5);
    assert_eq!(root_parent, Some(grandma_id));
}

#[test]
fn test_block_validator() {
    let mut freeout_blocks_in_reverse = Freeout::new("fake".to_string(), None);

    let mut block_in_rev: HashMap<usize, Block> = HashMap::new();

    let block_1 = Block { id: 3, depth: 2, children_ids: vec![], title: "block_1".to_string(), ..Default::default() };
    let block_2 = Block { id: 2, depth: 1, children_ids: vec![3], title: "block_2".to_string(), ..Default::default() };

    block_in_rev.insert(block_1.id, block_1);
    block_in_rev.insert(block_2.id, block_2);

    freeout_blocks_in_reverse.blocks = block_in_rev;

    assert!(freeout_blocks_in_reverse.validate_blocks().is_err());

    let mut block_1 = freeout_blocks_in_reverse.get_block_mut(&3).unwrap().clone();
    block_1.id = 1;
    freeout_blocks_in_reverse.blocks.insert(block_1.id, block_1);

    assert!(freeout_blocks_in_reverse.validate_blocks().is_ok());

    let mut block_with_gap: HashMap<usize, Block> = HashMap::new();

    let block_1 = Block { id: 1, depth: 1, children_ids: vec![2], title: "block_1".to_string(), ..Default::default() };
    let block_2 = Block { id: 4, depth: 2, children_ids: vec![], title: "block_2".to_string(), ..Default::default() };

    block_with_gap.insert(block_1.id, block_1);
    block_with_gap.insert(block_2.id, block_2);

    let mut freeout_blocks_with_gap = Freeout::new("fake".to_string(), None);
    freeout_blocks_with_gap.blocks = block_with_gap;

    assert!(freeout_blocks_with_gap.validate_blocks().is_err());

    let mut block_4 = freeout_blocks_with_gap.get_block_mut(&4).unwrap().clone();
    block_4.id = 2;
    freeout_blocks_with_gap.blocks.remove(&4);
    freeout_blocks_with_gap.blocks.insert(block_4.id, block_4);

    assert!(freeout_blocks_with_gap.validate_blocks().is_ok());
}

#[test]
fn next_sibling_is_none_past_the_last() {
    let blocks = &get_test_blocks();
    assert_eq!(BlockUtils::get_next_sibling_id(blocks, &12, &3), None);
    assert_eq!(BlockUtils::get_next_sibling_or_uncle_id(blocks, &12, &3), None);
    assert_eq!(BlockUtils::get_immediate_parent(blocks, &1, &1), None);
}

#[test]
fn previous_block_id_parses_a_plus_sign() {
    let blocks = &get_test_blocks();
    assert_eq!(BlockUtils::get_previous_block_id(blocks, "+2"), Some(1));
    assert_eq!(BlockUtils::get_previous_block_id(blocks, "1"), None);
    assert_eq!(BlockUtils::get_previous_block_id(blocks, "0"), None);
}

#[test]
fn block_ids_by_title_are_ascending() {
    let mut blocks = get_test_blocks();
    let mut twin = blocks.get(&7).unwrap().clone();
    twin.id = 13;
    twin.title = "me".to_string();
    blocks.insert(13, twin);
    assert_eq!(BlockUtils::get_block_ids_by_title(&blocks, "me"), vec![8, 13]);
    assert!(BlockUtils::get_block_ids_by_title(&blocks, "nobody").is_empty());
    assert!(BlockUtils::has_block_id(&blocks, &13));
    assert!(!BlockUtils::has_block_id(&blocks, &14));
}
