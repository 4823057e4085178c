use image::{DynamicImage, GrayImage, RgbaImage};
use snowglobe::canvas::{Canvas, CanvasError};

const A: [u8; 4] = [10, 11, 12, 255];
const B: [u8; 4] = [20, 21, 22, 1];
const C: [u8; 4] = [30, 31, 32, 0];
const D: [u8; 4] = [40, 41, 42, 128];
const E: [u8; 4] = [50, 51, 52, 255];
const F: [u8; 4] = [60, 61, 62, 255];

fn picture(width: u32, height: u32, pixels: &[[u8; 4]]) -> DynamicImage {
    let raw: Vec<u8> = pixels.iter().flatten().copied().collect();
    DynamicImage::ImageRgba8(RgbaImage::from_raw(width, height, raw).unwrap())
}

fn tile(frame: &[u8], x: usize, y: usize) -> [u8; 4] {
    let canvas = (16usize, 12usize, 2usize);
    let mut found: Option<[u8; 4]> = None;
    for i in 0..canvas.2 {
        for j in 0..canvas.2 {
            let row = canvas.1 - 1 - (y * canvas.2 + j);
            let col = x * canvas.2 + i;
            let at = (row * canvas.0 + col) * 4;
            let here = [frame[at], frame[at + 1], frame[at + 2], frame[at + 3]];
            assert!(found.is_none() || found == Some(here));
            found = Some(here);
        }
    }
    found.unwrap()
}

#[test]
fn draw_sprite_paints_one_tile_for_each_pixel_that_shows() {
    let canvas = Canvas::init(16, 12, 2).unwrap();
    let sprite = picture(3, 2, &[A, B, C, D, E, F]);
    let mut frame = vec![0u8; 16 * 12 * 4];
    assert_eq!(canvas.draw_sprite(&mut frame, &sprite, 2, 1), Ok(()));
    assert_eq!(tile(&frame, 2, 1), A);
    assert_eq!(tile(&frame, 3, 1), B);
    assert_eq!(tile(&frame, 4, 1), [0, 0, 0, 0]);
    assert_eq!(tile(&frame, 2, 2), D);
    assert_eq!(tile(&frame, 3, 2), E);
    assert_eq!(tile(&frame, 4, 2), F);
    let painted = (0..8).flat_map(|x| (0..6).map(move |y| (x, y))).filter(|c| tile(&frame, c.0, c.1) != [0; 4]);
    assert_eq!(painted.count(), 5);
}

#[test]
fn draw_sprite_draws_as_draw_pixels_does() {
    let canvas = Canvas::init(16, 12, 2).unwrap();
    let pixels = vec![A, B, C, D, E, F, C, A];
    let sprite = picture(4, 2, &pixels);
    let mut frame = vec![3u8; 16 * 12 * 4];
    let mut expected = vec![3u8; 16 * 12 * 4];
    assert_eq!(canvas.draw_sprite(&mut frame, &sprite, 4, 4), Ok(()));
    assert_eq!(canvas.draw_pixels(&mut expected, 4, &pixels, 4, 4), Ok(()));
    assert_eq!(frame, expected);
    assert_ne!(frame, vec![3u8; 16 * 12 * 4]);
}

#[test]
fn draw_sprite_reads_an_image_without_alpha_as_opaque() {
    let canvas = Canvas::init(16, 12, 2).unwrap();
    let sprite = DynamicImage::ImageLuma8(GrayImage::from_raw(2, 1, vec![0, 200]).unwrap());
    let mut frame = vec![3u8; 16 * 12 * 4];
    assert_eq!(canvas.draw_sprite(&mut frame, &sprite, 0, 0), Ok(()));
    assert_eq!(tile(&frame, 0, 0), [0, 0, 0, 255]);
    assert_eq!(tile(&frame, 1, 0), [200, 200, 200, 255]);
    assert_eq!(tile(&frame, 2, 0), [3, 3, 3, 3]);
}

#[test]
fn draw_sprite_rejects_a_pixel_off_the_canvas() {
    let canvas = Canvas::init(16, 12, 2).unwrap();
    let sprite = picture(3, 2, &[A, B, C, D, E, F]);
    let mut frame = vec![0u8; 16 * 12 * 4];
    assert_eq!(canvas.draw_sprite(&mut frame, &sprite, 6, 1), Err(CanvasError::OutOfBounds));
    assert_eq!(canvas.draw_sprite(&mut frame, &sprite, 2, 5), Err(CanvasError::OutOfBounds));
    assert_eq!(canvas.draw_sprite(&mut frame, &sprite, usize::MAX, 0), Err(CanvasError::OutOfBounds));
    assert_eq!(canvas.draw_sprite(&mut frame, &sprite, 0, usize::MAX), Err(CanvasError::OutOfBounds));
    assert_eq!(frame, vec![0u8; 16 * 12 * 4]);
    assert_eq!(canvas.draw_sprite(&mut frame, &sprite, 5, 4), Ok(()));
    let mut short = vec![0u8; 16 * 12 * 4 - 4];
    assert_eq!(canvas.draw_sprite(&mut short, &sprite, 2, 1), Err(CanvasError::OutOfBounds));
}

#[test]
fn draw_sprite_lets_a_transparent_pixel_hang_over_the_edge() {
    let canvas = Canvas::init(16, 12, 2).unwrap();
    let sprite = picture(3, 1, &[A, B, C]);
    let mut frame = vec![0u8; 16 * 12 * 4];
    assert_eq!(canvas.draw_sprite(&mut frame, &sprite, 6, 0), Ok(()));
    assert_eq!(tile(&frame, 6, 0), A);
    assert_eq!(tile(&frame, 7, 0), B);
}

#[test]
fn draw_sprite_of_an_empty_image_draws_nothing() {
    let canvas = Canvas::init(16, 12, 2).unwrap();
    let mut frame = vec![0u8; 16 * 12 * 4];
    for (width, height) in [(0, 0), (0, 1), (0, 5), (5, 0)] {
        let sprite = picture(width, height, &[]);
        assert_eq!(canvas.draw_sprite(&mut frame, &sprite, 100, 100), Ok(()));
        assert_eq!(frame, vec![0u8; 16 * 12 * 4]);
    }
    let mut short = vec![0u8; 5];
    assert_eq!(canvas.draw_sprite(&mut short, &picture(0, 3, &[]), 0, 0), Err(CanvasError::OutOfBounds));
}

#[test]
fn draw_pixels_places_the_rows_of_the_sprite_upward() {
    let canvas = Canvas::init(16, 12, 2).unwrap();
    let mut frame = vec![0u8; 16 * 12 * 4];
    assert_eq!(canvas.draw_pixels(&mut frame, 2, &vec![A, B, D, E, F], 1, 2), Ok(()));
    assert_eq!(tile(&frame, 1, 2), A);
    assert_eq!(tile(&frame, 2, 2), B);
    assert_eq!(tile(&frame, 1, 3), D);
    assert_eq!(tile(&frame, 2, 3), E);
    assert_eq!(tile(&frame, 1, 4), F);
    assert_eq!(tile(&frame, 2, 4), [0; 4]);
}

#[test]
fn draw_pixels_of_width_zero_draws_nothing() {
    let canvas = Canvas::init(16, 12, 2).unwrap();
    let mut frame = vec![0u8; 16 * 12 * 4];
    assert_eq!(canvas.draw_pixels(&mut frame, 0, &vec![A, B], 0, 0), Ok(()));
    assert_eq!(frame, vec![0u8; 16 * 12 * 4]);
}

#[test]
fn draw_pixels_rejects_a_pixel_off_the_canvas() {
    let canvas = Canvas::init(16, 12, 2).unwrap();
    let mut frame = vec![0u8; 16 * 12 * 4];
    assert_eq!(canvas.draw_pixels(&mut frame, 1, &vec![A, A, A], 0, 4), Err(CanvasError::OutOfBounds));
    assert_eq!(canvas.draw_pixels(&mut frame, 3, &vec![A, A, A], 6, 0), Err(CanvasError::OutOfBounds));
    assert_eq!(frame, vec![0u8; 16 * 12 * 4]);
    assert_eq!(canvas.draw_pixels(&mut frame, 1, &vec![A, A, C], 0, 4), Ok(()));
}
