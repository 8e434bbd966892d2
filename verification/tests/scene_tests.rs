use orbit_shadow::scene::{
    block_kind, button_response, clear_color, directional_illuminance, lantern_intensity,
    lantern_range, layer_blocks, Block, BlockKind, PointerInteraction,
};

fn grid(rows: &[&str]) -> Vec<Vec<char>> {
    rows.iter().map(|r| r.chars().collect()).collect()
}

#[test]
fn characters_map_to_materials() {
    assert_eq!(block_kind('g'), Some(BlockKind::Grass));
    assert_eq!(block_kind('G'), Some(BlockKind::Grass));
    assert_eq!(block_kind('t'), Some(BlockKind::Trunk));
    assert_eq!(block_kind('r'), Some(BlockKind::Trunk));
    assert_eq!(block_kind('m'), Some(BlockKind::Wood));
    assert_eq!(block_kind('l'), Some(BlockKind::Leaves));
    assert_eq!(block_kind('f'), Some(BlockKind::Lantern));
    assert_eq!(block_kind('a'), Some(BlockKind::Water));
    assert_eq!(block_kind('w'), Some(BlockKind::Window));
    assert_eq!(block_kind('d'), Some(BlockKind::Dirt));
    assert_eq!(block_kind('v'), Some(BlockKind::Glass));
    assert_eq!(block_kind('.'), None);
    assert_eq!(block_kind(' '), None);
    assert_eq!(block_kind('x'), None);
}

#[test]
fn layer_cells_are_centered_on_the_origin() {
    let rows = grid(&["gt", ".w"]);
    let blocks = layer_blocks(&rows, 0);
    assert_eq!(
        blocks,
        vec![
            Block { x2: -1, y2: 0, z2: 1, kind: BlockKind::Grass },
            Block { x2: 1, y2: 0, z2: 1, kind: BlockKind::Trunk },
            Block { x2: 1, y2: 0, z2: -1, kind: BlockKind::Window },
        ]
    );
}

#[test]
fn layer_index_stacks_upward() {
    let rows = grid(&["g"]);
    let blocks = layer_blocks(&rows, 3);
    assert_eq!(blocks, vec![Block { x2: 0, y2: 6, z2: 0, kind: BlockKind::Grass }]);
}

#[test]
fn ragged_rows_use_first_row_width() {
    let rows = grid(&["g..", "gg"]);
    let blocks = layer_blocks(&rows, 0);
    assert_eq!(
        blocks,
        vec![
            Block { x2: -2, y2: 0, z2: 1, kind: BlockKind::Grass },
            Block { x2: -2, y2: 0, z2: -1, kind: BlockKind::Grass },
            Block { x2: 0, y2: 0, z2: -1, kind: BlockKind::Grass },
        ]
    );
}

#[test]
fn empty_layout_places_nothing() {
    let rows: Vec<Vec<char>> = Vec::new();
    assert_eq!(layer_blocks(&rows, 0), Vec::new());
}

#[test]
fn day_and_night_lighting_values() {
    let day = clear_color(false);
    assert_eq!((day.r, day.g, day.b), (500, 700, 1000));
    let night = clear_color(true);
    assert_eq!((night.r, night.g, night.b), (20, 30, 60));
    assert_eq!(directional_illuminance(false), 10_000);
    assert_eq!(directional_illuminance(true), 800);
}

#[test]
fn lanterns_brighten_at_night() {
    assert_eq!(lantern_intensity(1200, false), 1200);
    assert_eq!(lantern_intensity(1200, true), 1920);
    assert_eq!(lantern_range(5_000_000, true), 8_000_000);
    assert_eq!(lantern_range(9_000_000, true), 9_000_000);
    assert_eq!(lantern_range(5_000_000, false), 5_000_000);
}

#[test]
fn pressing_the_button_toggles_night_mode() {
    let (night, color) = button_response(false, PointerInteraction::Pressed);
    assert!(night);
    assert_eq!((color.r, color.g, color.b), (200, 200, 250));
    let (night2, _) = button_response(night, PointerInteraction::Pressed);
    assert!(!night2);
    let (same, hover) = button_response(true, PointerInteraction::Hovered);
    assert!(same);
    assert_eq!((hover.r, hover.g, hover.b), (200, 200, 300));
    let (idle_same, idle) = button_response(true, PointerInteraction::Idle);
    assert!(idle_same);
    assert_eq!((idle.r, idle.g, idle.b), (150, 150, 200));
}
