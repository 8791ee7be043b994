//! End-to-end still-life scenarios: each input square evolves to the
//! expected centered half-side square.

use hashlife::cache::Cache;
use hashlife::macro_cell::MacroCell;
use hashlife::state_buffer::parse_plaintext;

fn assert_result(world_grid: &str, expected_grid: &str) {
    let mut cache = Cache::new();

    let world_buf = parse_plaintext(world_grid);
    let expected_buf = parse_plaintext(expected_grid);

    let world = MacroCell::from_square(world_buf.view(), &mut cache);
    let result = world.result(&cache).unwrap();

    let expected = MacroCell::from_square(expected_buf.view(), &mut cache);

    assert_eq!(result, expected);
}

#[test]
fn block_pattern() {
    assert_result(
        "\
            ........\n\
            ........\n\
            ........\n\
            ...OO...\n\
            ...OO...\n\
            ........\n\
            ........\n\
            ........\n\
        ",
        "\
            ....\n\
            .OO.\n\
            .OO.\n\
            ....\n\
        ",
    )
}

#[test]
fn beehive_pattern() {
    assert_result(
        "\
            ........\n\
            ........\n\
            ...OO...\n\
            ..O..O..\n\
            ...OO...\n\
            ........\n\
            ........\n\
            ........\n\
        ",
        "\
            .OO.\n\
            O..O\n\
            .OO.\n\
            ....\n\
        ",
    )
}

#[test]
fn loaf_pattern() {
    assert_result(
        "\
            ........\n\
            ........\n\
            ...OO...\n\
            ..O..O..\n\
            ...O.O..\n\
            ....O...\n\
            ........\n\
            ........\n\
        ",
        "\
            .OO.\n\
            O..O\n\
            .O.O\n\
            ..O.\n\
        ",
    )
}

#[test]
fn pond_pattern() {
    assert_result(
        "\
            ........\n\
            ........\n\
            ...OO...\n\
            ..O..O..\n\
            ..O..O..\n\
            ...OO...\n\
            ........\n\
            ........\n\
        ",
        "\
            .OO.\n\
            O..O\n\
            O..O\n\
            .OO.\n\
        ",
    )
}

#[test]
fn ship_tie_pattern() {
    assert_result(
        "\
            ................\n\
            ................\n\
            ................\n\
            ................\n\
            ................\n\
            .........OO.....\n\
            ........O.O.....\n\
            ........OO......\n\
            ......OO........\n\
            .....O.O........\n\
            .....OO.........\n\
            ................\n\
            ................\n\
            ................\n\
            ................\n\
            ................\n\
        ",
        "\
            ........\n\
            .....OO.\n\
            ....O.O.\n\
            ....OO..\n\
            ..OO....\n\
            .O.O....\n\
            .OO.....\n\
            ........\n\
        ",
    )
}
