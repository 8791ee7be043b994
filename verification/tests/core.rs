//! Unit tests for the core: the base case, canonicalization, repeated
//! evaluation, the bootstrap buffer, and the plain-text reader.

use hashlife::cache::Cache;
use hashlife::macro_cell::{MacroCell, MacroCellLeaf};
use hashlife::state_buffer::{parse_plaintext, StateBuffer};

#[test]
fn all_dead_square() {
    let mut cache = Cache::new();
    let world = parse_plaintext("....\n....\n....\n....\n");
    let cell = MacroCell::from_square(world.view(), &mut cache);
    let result = cell.result(&cache).unwrap();
    let expected = parse_plaintext("..\n..\n");
    let expected_cell = MacroCell::from_square(expected.view(), &mut cache);
    assert_eq!(result, expected_cell);
}

#[test]
fn single_generation_blinker() {
    // A vertical blinker in a 4x4 square turns horizontal in its center
    // after the one generation a side-4 square advances.
    let mut cache = Cache::new();
    let world = parse_plaintext(".O..\n.O..\n.O..\n....\n");
    let cell = MacroCell::from_square(world.view(), &mut cache);
    let result = cell.result(&cache).unwrap();
    let expected = parse_plaintext("OO\n..\n");
    let expected_cell = MacroCell::from_square(expected.view(), &mut cache);
    assert_eq!(result, expected_cell);
}

#[test]
fn leaf_has_no_result() {
    let mut cache = Cache::new();
    let world = parse_plaintext("O.\n.O\n");
    let cell = MacroCell::from_square(world.view(), &mut cache);
    assert!(matches!(cell, MacroCell::Leaf(_)));
    assert!(cell.result(&cache).is_none());
}

#[test]
fn canonical_handles_are_equal() {
    // Interning the same pattern twice yields the same canonical cell.
    let mut cache = Cache::new();
    let text = "....\n.OO.\n.OO.\n....\n";
    let first = MacroCell::from_square(parse_plaintext(text).view(), &mut cache);
    let second = MacroCell::from_square(parse_plaintext(text).view(), &mut cache);
    assert_eq!(first, second);
}

#[test]
fn repeated_result_is_stable() {
    let mut cache = Cache::new();
    let world = parse_plaintext(
        "........\n........\n...OO...\n..O..O..\n...OO...\n........\n........\n........\n",
    );
    let cell = MacroCell::from_square(world.view(), &mut cache);
    let first = cell.result(&cache).unwrap();
    let second = cell.result(&cache).unwrap();
    assert_eq!(first, second);
}

#[test]
fn map_branches_picks_the_leaf_side() {
    let mut cache = Cache::new();
    let world = parse_plaintext("....\n.OO.\n.OO.\n....\n");
    let cell = MacroCell::from_square(world.view(), &mut cache);
    let MacroCell::Branch(handle) = cell else {
        panic!("a side-4 square is a branch");
    };
    let record = cache.record_of(handle);
    let kind = record.map_branches(
        |tl: MacroCellLeaf, _tr, _bl, _br| if tl.bottom_right { 1u32 } else { 2u32 },
        |_tl, _tr, _bl, _br| 3u32,
    );
    // The four children of a side-4 square are leaves, and the top-left
    // leaf's bottom-right cell is alive in the block pattern.
    assert_eq!(kind, 1);
}

#[test]
fn parse_plaintext_pads_and_skips_comments() {
    let world = parse_plaintext("!a comment\nO\n.O\n");
    let view = world.view();
    assert_eq!(view.rows(), 2);
    assert_eq!(view.cols(), 2);
    assert!(view.at(0, 0));
    assert!(!view.at(0, 1)); // the short first line pads with dead cells
    assert!(!view.at(1, 0));
    assert!(view.at(1, 1));
}

#[test]
fn sub_rectangle_reads_the_window() {
    let buffer = StateBuffer::new(
        vec![true, false, false, true, false, true, true, false, true],
        3,
        3,
    );
    let view = buffer.view();
    let window = view.sub_rectangle(1, 3, 1, 3);
    assert_eq!(window.rows(), 2);
    assert_eq!(window.cols(), 2);
    assert!(!window.at(0, 0));
    assert!(window.at(0, 1));
    assert!(!window.at(1, 0));
    assert!(window.at(1, 1));
}
