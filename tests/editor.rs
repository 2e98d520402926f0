use pixel_editor::buffer::{one_to_two, two_to_one, Image, Pixel};
use pixel_editor::tools::{Tool, ToolState};
use pixel_editor::transform::{cell_in_canvas, to_grid};

const CLEAR: Pixel = (0, 0, 0, 0);
const RED: Pixel = (255, 0, 0, 255);
const BLUE: Pixel = (0, 0, 255, 255);
const GREEN: Pixel = (0, 255, 0, 255);

fn count_not(img: &Image, c: Pixel) -> usize {
    img.pixels.iter().filter(|p| **p != c).count()
}

#[test]
fn blank_canvas_is_transparent() {
    let img = Image::blank(3, 2);
    assert_eq!(img.width, 3);
    assert_eq!(img.height, 2);
    assert_eq!(img.pixels, vec![CLEAR; 6]);
    assert!(img.is_well_formed());
}

#[test]
fn paint_then_fill_scenario() {
    let mut img = Image::blank(4, 4);
    img.paint(1, 1, 1, RED);
    assert_eq!(count_not(&img, CLEAR), 1);
    assert_eq!(img.get(1, 1), RED);
    img.flood_fill(0, 0, BLUE);
    for y in 0..4 {
        for x in 0..4 {
            if x == 1 && y == 1 {
                assert_eq!(img.get(x, y), RED);
            } else {
                assert_eq!(img.get(x, y), BLUE);
            }
        }
    }
}

#[test]
fn brush_at_corner_stays_in_bounds() {
    let mut img = Image::blank(4, 3);
    img.paint(0, 0, 5, GREEN);
    assert_eq!(img.pixels.len(), 12);
    for y in 0..3 {
        for x in 0..4 {
            let want = if x <= 2 && y <= 2 { GREEN } else { CLEAR };
            assert_eq!(img.get(x, y), want);
        }
    }
}

#[test]
fn huge_brush_covers_whole_canvas() {
    let mut img = Image::blank(3, 3);
    img.paint(2, 2, usize::MAX, RED);
    assert_eq!(img.pixels, vec![RED; 9]);
}

#[test]
fn even_brush_size_reaches_half_each_side() {
    let mut img = Image::blank(5, 5);
    img.paint(2, 2, 2, RED);
    assert_eq!(count_not(&img, CLEAR), 9);
    assert_eq!(img.get(1, 1), RED);
    assert_eq!(img.get(3, 3), RED);
    assert_eq!(img.get(0, 2), CLEAR);
}

#[test]
fn erase_clears_square() {
    let mut img = Image::new(3, 3, vec![RED; 9]);
    img.erase(1, 1, 1);
    assert_eq!(img.get(1, 1), CLEAR);
    assert_eq!(count_not(&img, RED), 1);
}

#[test]
fn fill_one_by_one() {
    let mut img = Image::blank(1, 1);
    img.flood_fill(0, 0, RED);
    assert_eq!(img.pixels, vec![RED]);
}

#[test]
fn fill_uniform_canvas() {
    let mut img = Image::blank(20, 15);
    img.flood_fill(7, 9, GREEN);
    assert_eq!(img.pixels, vec![GREEN; 300]);
}

#[test]
fn fill_with_same_colour_is_noop() {
    let mut img = Image::blank(3, 3);
    img.paint(1, 1, 1, RED);
    let before = img.pixels.clone();
    img.flood_fill(0, 0, CLEAR);
    assert_eq!(img.pixels, before);
}

#[test]
fn fill_stops_at_walls_and_ignores_diagonals() {
    // A vertical red wall in column 2 splits a 5x3 canvas.
    let mut img = Image::blank(5, 3);
    for y in 0..3 {
        img.paint(2, y, 1, RED);
    }
    img.flood_fill(0, 1, BLUE);
    for y in 0..3 {
        assert_eq!(img.get(0, y), BLUE);
        assert_eq!(img.get(1, y), BLUE);
        assert_eq!(img.get(2, y), RED);
        assert_eq!(img.get(3, y), CLEAR);
        assert_eq!(img.get(4, y), CLEAR);
    }
    // Cells touching only at a corner are not joined.
    let mut d = Image::blank(2, 2);
    d.paint(0, 0, 1, RED);
    d.paint(1, 1, 1, RED);
    d.flood_fill(0, 0, GREEN);
    assert_eq!(d.pixels, vec![GREEN, CLEAR, CLEAR, RED]);
}

#[test]
fn set_and_get_cells() {
    let mut img = Image::blank(3, 2);
    img.set(2, 1, RED);
    assert_eq!(img.pixels[5], RED);
    assert_eq!(img.get(2, 1), RED);
    assert_eq!(img.get(1, 1), CLEAR);
}

#[test]
fn to_grid_truncates_toward_zero() {
    assert_eq!(to_grid(70, 45, 20), (3, 2));
    assert_eq!(to_grid(-5, -19, 20), (0, 0));
    assert_eq!(to_grid(-25, 0, 20), (-1, 0));
    assert_eq!(to_grid(i32::MIN, i32::MAX, 1), (i32::MIN, i32::MAX));
}

#[test]
fn cell_centre_resolves_to_cell() {
    let g = 20;
    for col in 0..4 {
        for row in 0..3 {
            let (c, r) = to_grid(col * g + g / 2, row * g + g / 2, g);
            assert_eq!((c, r), (col, row));
            assert_eq!(cell_in_canvas(c, r, 4, 3), Some((col as usize, row as usize)));
        }
    }
}

#[test]
fn cell_outside_canvas_is_rejected() {
    assert_eq!(cell_in_canvas(-1, 0, 4, 4), None);
    assert_eq!(cell_in_canvas(0, 4, 4, 4), None);
    assert_eq!(cell_in_canvas(4, 0, 4, 4), None);
    assert_eq!(cell_in_canvas(3, 3, 4, 4), Some((3, 3)));
    assert_eq!(cell_in_canvas(0, 0, 0, 0), None);
}

#[test]
fn picker_is_one_shot() {
    let mut img = Image::blank(2, 2);
    img.set(1, 0, GREEN);
    let mut tools = ToolState::new();
    tools.toggle(Tool::ColorPicker);
    assert_eq!(tools.tool, Tool::ColorPicker);
    tools.apply(&mut img, 1, 0);
    assert_eq!(tools.color, GREEN);
    assert_eq!(tools.tool, Tool::Paint);
    tools.apply(&mut img, 0, 0);
    assert_eq!(img.get(0, 0), GREEN);
}

#[test]
fn fill_tool_is_one_shot() {
    let mut img = Image::blank(2, 2);
    let mut tools = ToolState::new();
    tools.color = RED;
    tools.toggle(Tool::Fill);
    tools.apply(&mut img, 0, 0);
    assert_eq!(img.pixels, vec![RED; 4]);
    assert_eq!(tools.tool, Tool::Paint);
}

#[test]
fn eraser_tool_stays_active() {
    let mut img = Image::new(2, 1, vec![RED, RED]);
    let mut tools = ToolState::new();
    tools.toggle(Tool::Eraser);
    tools.apply(&mut img, 0, 0);
    assert_eq!(img.pixels, vec![CLEAR, RED]);
    assert_eq!(tools.tool, Tool::Eraser);
    tools.toggle(Tool::Eraser);
    assert_eq!(tools.tool, Tool::Paint);
}

#[test]
fn flatten_and_unflatten_round_trip() {
    let rows = vec![vec![RED, BLUE, GREEN], vec![CLEAR, RED, BLUE]];
    let flat = two_to_one(rows.clone());
    assert_eq!(flat, vec![RED, BLUE, GREEN, CLEAR, RED, BLUE]);
    assert_eq!(one_to_two(flat, 2, 3), rows);
    assert_eq!(one_to_two(vec![RED, BLUE, GREEN], 1, 2), vec![vec![RED, BLUE]]);
}
