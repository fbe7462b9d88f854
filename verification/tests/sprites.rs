use bullets_on_wheels::sheet::{alpha_grid, cut_sprite_sheet, RgbaSheet};
use bullets_on_wheels::sprites::{find_sprite_bounds, find_sprites, AlphaGrid, SpriteRect};

fn grid(rows: &[&str]) -> AlphaGrid {
    let height = rows.len() as u32;
    let width = rows.first().map(|r| r.len()).unwrap_or(0) as u32;
    let alpha = rows
        .iter()
        .flat_map(|r| r.chars().map(|c| if c == '#' { 255u8 } else { 0u8 }))
        .collect();
    AlphaGrid { width, height, alpha }
}

fn rect(x: u32, y: u32, width: u32, height: u32) -> SpriteRect {
    SpriteRect { x, y, width, height }
}

#[test]
fn finds_separate_sprites_in_scan_order() {
    let g = grid(&[
        "##....",
        "##..#.",
        "....#.",
        ".#..##",
    ]);
    assert_eq!(find_sprites(&g), vec![rect(0, 0, 2, 2), rect(4, 1, 2, 3), rect(1, 3, 1, 1)]);
}

#[test]
fn diagonal_pixels_are_separate_sprites() {
    let g = grid(&["#.", ".#"]);
    assert_eq!(find_sprites(&g), vec![rect(0, 0, 1, 1), rect(1, 1, 1, 1)]);
}

#[test]
fn concave_sprite_is_one_box() {
    let g = grid(&[
        "#...#",
        "#...#",
        "#####",
    ]);
    assert_eq!(find_sprites(&g), vec![rect(0, 0, 5, 3)]);
}

#[test]
fn transparent_or_empty_sheet_has_no_sprites() {
    assert!(find_sprites(&grid(&["...", "..."])).is_empty());
    assert!(find_sprites(&AlphaGrid { width: 0, height: 0, alpha: vec![] }).is_empty());
}

#[test]
fn bounds_fill_the_component_and_mark_it() {
    let g = grid(&[
        ".#.",
        "###",
        "..#",
    ]);
    let mut visited = vec![false; 9];
    let r = find_sprite_bounds(&g, 1, 0, &mut visited);
    assert_eq!(r, rect(0, 0, 3, 3));
    assert_eq!(visited, vec![false, true, false, true, true, true, false, false, true]);
}

#[test]
fn bounds_from_transparent_start_is_single_pixel() {
    let g = grid(&["#.", ".."]);
    let mut visited = vec![false; 4];
    assert_eq!(find_sprite_bounds(&g, 1, 1, &mut visited), rect(1, 1, 1, 1));
    assert_eq!(visited, vec![false; 4]);
}

#[test]
fn bounds_stop_at_visited_pixels() {
    let g = grid(&["###"]);
    let mut visited = vec![false, true, false];
    assert_eq!(find_sprite_bounds(&g, 0, 0, &mut visited), rect(0, 0, 1, 1));
    assert_eq!(visited, vec![true, true, false]);
}

#[test]
fn bounds_from_outside_the_image_is_single_pixel() {
    let g = grid(&["#"]);
    let mut visited = vec![false];
    assert_eq!(find_sprite_bounds(&g, 3, 7, &mut visited), rect(3, 7, 1, 1));
    assert_eq!(visited, vec![false]);
}

#[test]
fn every_opaque_pixel_is_in_some_sprite() {
    let g = grid(&[
        "#.#.#",
        ".#.#.",
        "#.#.#",
    ]);
    let sprites = find_sprites(&g);
    assert_eq!(sprites.len(), 8);
    for s in &sprites {
        assert!(s.x + s.width <= g.width && s.y + s.height <= g.height);
    }
}

fn rgba_sheet(width: u32, height: u32, opaque: &[(u32, u32)]) -> RgbaSheet {
    let mut pixels = Vec::new();
    for y in 0..height {
        for x in 0..width {
            let a = if opaque.contains(&(x, y)) { 255 } else { 0 };
            pixels.extend_from_slice(&[(10 * x + y) as u8, (100 + x) as u8, (200 + y) as u8, a]);
        }
    }
    RgbaSheet { width, height, pixels }
}

#[test]
fn alpha_grid_takes_every_fourth_byte() {
    let sheet = rgba_sheet(3, 2, &[(0, 0), (2, 1)]);
    let g = alpha_grid(&sheet);
    assert_eq!((g.width, g.height), (3, 2));
    assert_eq!(g.alpha, vec![255, 0, 0, 0, 0, 255]);
}

#[test]
fn cut_sheet_crops_each_sprite() {
    let sheet = rgba_sheet(3, 2, &[(0, 0), (0, 1), (2, 0)]);
    let cut = cut_sprite_sheet(&sheet);
    assert_eq!(cut.sprites, vec![rect(0, 0, 1, 2), rect(2, 0, 1, 1)]);
    assert_eq!(cut.crops.len(), 2);
    assert_eq!(cut.crops[0], vec![0, 100, 200, 255, 1, 100, 201, 255]);
    assert_eq!(cut.crops[1], vec![20, 102, 200, 255]);
}

#[test]
fn cut_sheet_crops_a_wide_sprite_row_by_row() {
    let sheet = rgba_sheet(4, 3, &[(1, 1), (2, 1), (2, 2)]);
    let cut = cut_sprite_sheet(&sheet);
    assert_eq!(cut.sprites, vec![rect(1, 1, 2, 2)]);
    assert_eq!(
        cut.crops[0],
        vec![11, 101, 201, 255, 21, 102, 201, 255, 12, 101, 202, 0, 22, 102, 202, 255]
    );
}

#[test]
fn cut_empty_sheet_has_no_sprites() {
    let cut = cut_sprite_sheet(&rgba_sheet(2, 2, &[]));
    assert!(cut.sprites.is_empty() && cut.crops.is_empty());
}
