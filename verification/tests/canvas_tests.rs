use snowglobe::canvas::{Canvas, CanvasError};

const RED: [u8; 4] = [0xff, 0x00, 0x00, 0xff];
const BLUE: [u8; 4] = [0x10, 0x20, 0xf0, 0x80];
const GREY: [u8; 4] = [0x3e, 0x42, 0x4b, 0xff];

fn pixel(frame: &[u8], row_len: usize, row: usize, col: usize) -> [u8; 4] {
    let at = (row * row_len + col) * 4;
    [frame[at], frame[at + 1], frame[at + 2], frame[at + 3]]
}

#[test]
fn init_accepts_a_canvas_cut_into_whole_tiles() {
    let canvas = Canvas::init(900, 450, 5).unwrap();
    assert_eq!(canvas.row_len(), 900);
    assert_eq!(canvas.col_len(), 450);
    assert_eq!(canvas.tile_size(), 5);
    assert_eq!(canvas.max_grid_x(), 180);
    assert_eq!(canvas.max_grid_y(), 90);
}

#[test]
fn init_rejects_a_tile_size_of_zero() {
    assert_eq!(Canvas::init(900, 450, 0).err(), Some(CanvasError::InvalidConfig));
}

#[test]
fn init_rejects_an_empty_dimension() {
    assert_eq!(Canvas::init(0, 450, 5).err(), Some(CanvasError::InvalidConfig));
    assert_eq!(Canvas::init(900, 0, 5).err(), Some(CanvasError::InvalidConfig));
}

#[test]
fn init_rejects_a_dimension_that_is_no_multiple_of_the_tile() {
    assert_eq!(Canvas::init(901, 450, 5).err(), Some(CanvasError::InvalidConfig));
    assert_eq!(Canvas::init(900, 451, 5).err(), Some(CanvasError::InvalidConfig));
    assert!(Canvas::init(5, 5, 5).is_ok());
}

#[test]
fn init_rejects_a_dimension_beyond_the_grid_range() {
    assert_eq!(Canvas::init(0x8000_0000, 1, 1).err(), Some(CanvasError::InvalidConfig));
    assert_eq!(Canvas::init(1, 0x8000_0000, 1).err(), Some(CanvasError::InvalidConfig));
    assert!(Canvas::init(0x7fff_ffff, 1, 1).is_ok());
}

#[test]
fn fits_tells_a_frame_of_the_right_size() {
    let canvas = Canvas::init(4, 6, 2).unwrap();
    assert!(canvas.fits(&vec![0u8; 96]));
    assert!(!canvas.fits(&vec![0u8; 95]));
    assert!(!canvas.fits(&vec![0u8; 97]));
    assert!(!canvas.fits(&[]));
}

#[test]
fn clear_overwrites_every_pixel() {
    let canvas = Canvas::init(4, 4, 2).unwrap();
    let mut frame = vec![7u8; 64];
    canvas.clear(&mut frame, GREY);
    for row in 0..4 {
        for col in 0..4 {
            assert_eq!(pixel(&frame, 4, row, col), GREY);
        }
    }
}

#[test]
fn clear_leaves_the_bytes_behind_the_last_whole_pixel() {
    let canvas = Canvas::init(4, 4, 2).unwrap();
    let mut frame = vec![7u8; 11];
    canvas.clear(&mut frame, BLUE);
    assert_eq!(frame, vec![0x10, 0x20, 0xf0, 0x80, 0x10, 0x20, 0xf0, 0x80, 7, 7, 7]);
    let mut empty: Vec<u8> = Vec::new();
    canvas.clear(&mut empty, BLUE);
    assert!(empty.is_empty());
}

#[test]
fn draw_tile_writes_the_bottom_left_tile_into_the_last_pixel_rows() {
    let canvas = Canvas::init(4, 4, 2).unwrap();
    let mut frame = vec![0u8; 64];
    assert_eq!(canvas.draw_tile(&mut frame, 0, 0, RED), Ok(()));
    let mut expected = vec![0u8; 64];
    for at in (32..40).chain(48..56) {
        expected[at] = RED[at % 4];
    }
    assert_eq!(frame, expected);
}

#[test]
fn draw_tile_writes_the_top_right_tile_into_the_first_pixel_rows() {
    let canvas = Canvas::init(4, 4, 2).unwrap();
    let mut frame = vec![0u8; 64];
    assert_eq!(canvas.draw_tile(&mut frame, 1, 1, BLUE), Ok(()));
    let mut expected = vec![0u8; 64];
    for at in (8..16).chain(24..32) {
        expected[at] = BLUE[at % 4];
    }
    assert_eq!(frame, expected);
}

#[test]
fn draw_tile_reads_back_on_every_cell() {
    let canvas = Canvas::init(12, 8, 2).unwrap();
    for x in 0..6usize {
        for y in 0..4usize {
            let mut frame = vec![9u8; 12 * 8 * 4];
            assert_eq!(canvas.draw_tile(&mut frame, x, y, BLUE), Ok(()));
            for row in 0..8usize {
                for col in 0..12usize {
                    let inside = col / 2 == x && (7 - row) / 2 == y;
                    let expected = if inside { BLUE } else { [9u8; 4] };
                    assert_eq!(pixel(&frame, 12, row, col), expected);
                }
            }
            for i in 0..2usize {
                for j in 0..2usize {
                    assert_eq!(pixel(&frame, 12, 8 - 1 - (y * 2 + j), x * 2 + i), BLUE);
                }
            }
        }
    }
}

#[test]
fn draw_tile_rejects_a_cell_beyond_the_last_column_or_row() {
    let canvas = Canvas::init(12, 8, 2).unwrap();
    let mut frame = vec![9u8; 12 * 8 * 4];
    assert_eq!(canvas.draw_tile(&mut frame, 6, 0, RED), Err(CanvasError::OutOfBounds));
    assert_eq!(canvas.draw_tile(&mut frame, 0, 4, RED), Err(CanvasError::OutOfBounds));
    assert_eq!(canvas.draw_tile(&mut frame, usize::MAX, usize::MAX, RED), Err(CanvasError::OutOfBounds));
    assert_eq!(frame, vec![9u8; 12 * 8 * 4]);
    assert_eq!(canvas.draw_tile(&mut frame, 5, 3, RED), Ok(()));
}

#[test]
fn draw_tile_rejects_a_frame_of_another_size() {
    let canvas = Canvas::init(12, 8, 2).unwrap();
    let mut short = vec![9u8; 12 * 8 * 4 - 1];
    assert_eq!(canvas.draw_tile(&mut short, 0, 0, RED), Err(CanvasError::OutOfBounds));
    assert_eq!(short, vec![9u8; 12 * 8 * 4 - 1]);
    let mut long = vec![9u8; 12 * 8 * 4 + 4];
    assert_eq!(canvas.draw_tile(&mut long, 0, 0, RED), Err(CanvasError::OutOfBounds));
    assert_eq!(long, vec![9u8; 12 * 8 * 4 + 4]);
}

#[test]
fn mouse_to_canvas_clamps_to_the_last_index() {
    let canvas = Canvas::init(900, 450, 5).unwrap();
    assert_eq!(canvas.mouse_to_canvas(true, 10000), 180);
    assert_eq!(canvas.mouse_to_canvas(true, i64::MAX), 180);
    assert_eq!(canvas.mouse_to_canvas(false, i64::MIN), 90);
    assert_eq!(canvas.mouse_to_canvas(false, -10000), 90);
}

#[test]
fn mouse_to_canvas_halves_and_divides_by_the_tile_size() {
    let canvas = Canvas::init(900, 450, 5).unwrap();
    assert_eq!(canvas.mouse_to_canvas(true, 0), 0);
    assert_eq!(canvas.mouse_to_canvas(true, 9), 0);
    assert_eq!(canvas.mouse_to_canvas(true, 10), 1);
    assert_eq!(canvas.mouse_to_canvas(true, 25), 2);
    assert_eq!(canvas.mouse_to_canvas(true, 1799), 179);
    assert_eq!(canvas.mouse_to_canvas(true, 1800), 180);
    assert_eq!(canvas.mouse_to_canvas(true, 1810), 180);
}

#[test]
fn mouse_to_canvas_turns_the_vertical_axis_over() {
    let canvas = Canvas::init(900, 450, 5).unwrap();
    assert_eq!(canvas.mouse_to_canvas(false, 0), 90);
    assert_eq!(canvas.mouse_to_canvas(false, 1), 89);
    assert_eq!(canvas.mouse_to_canvas(false, 10), 89);
    assert_eq!(canvas.mouse_to_canvas(false, 885), 1);
    assert_eq!(canvas.mouse_to_canvas(false, 895), 0);
    assert_eq!(canvas.mouse_to_canvas(false, 900), 0);
}

#[test]
fn mouse_to_canvas_gives_zero_left_of_and_below_the_canvas() {
    let canvas = Canvas::init(900, 450, 5).unwrap();
    assert_eq!(canvas.mouse_to_canvas(true, -1), 0);
    assert_eq!(canvas.mouse_to_canvas(true, i64::MIN), 0);
    assert_eq!(canvas.mouse_to_canvas(false, 901), 0);
    assert_eq!(canvas.mouse_to_canvas(false, i64::MAX), 0);
}

#[test]
fn in_bounds_holds_of_the_cells_of_the_grid() {
    let canvas = Canvas::init(12, 8, 2).unwrap();
    assert!(canvas.in_bounds((0, 0)));
    assert!(canvas.in_bounds((5, 3)));
    assert!(!canvas.in_bounds((6, 3)));
    assert!(!canvas.in_bounds((5, 4)));
    assert!(!canvas.in_bounds((-1, 0)));
    assert!(!canvas.in_bounds((0, -1)));
}
