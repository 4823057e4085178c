//! The drawing routines as plain functions, for callers that hold the
//! dimensions of their frame and no canvas.

use vstd::prelude::*;
use crate::canvas::{valid_config, Canvas, CanvasError};
use crate::geometry::circle_spec;

verus! {

/// Sets the tile of grid cell `(pos_x, pos_y)` to `color` in a frame of
/// `row_len` by `col_len` pixels with tiles of `width` pixels. Nothing is
/// written unless these describe a canvas, the whole tile lies on it and
/// `frame` has its size.
pub fn draw_tile(
    frame: &mut [u8],
    row_len: usize,
    col_len: usize,
    pos_x: usize,
    pos_y: usize,
    width: usize,
    color: [u8; 4],
) -> (res: Result<(), CanvasError>)
    ensures
        !valid_config(row_len as int, col_len as int, width as int) ==> res == Err::<(), CanvasError>(
            CanvasError::InvalidConfig,
        ),
        valid_config(row_len as int, col_len as int, width as int) ==> {
            let canvas = Canvas::of(row_len as int, col_len as int, width as int);
            &&& res is Ok <==> canvas.in_grid(pos_x as int, pos_y as int) && old(frame)@.len() == canvas.frame_len()
            &&& res is Ok ==> final(frame)@ == canvas.painted(
                old(frame)@,
                set![(pos_x as int, pos_y as int)],
                color@,
            )
            &&& res is Err ==> res == Err::<(), CanvasError>(CanvasError::OutOfBounds)
        },
        res is Err ==> final(frame)@ == old(frame)@,
{
    match Canvas::init(row_len, col_len, width) {
        Ok(canvas) => canvas.draw_tile(frame, pos_x, pos_y, color),
        Err(e) => Err(e),
    }
}

/// Overwrites every whole pixel of `frame` with `clear_color`; up to three
/// bytes behind the last whole pixel stay as they are.
pub fn clear_frame(frame: &mut [u8], clear_color: [u8; 4])
    ensures
        final(frame)@.len() == old(frame)@.len(),
        forall|b: int|
            0 <= b < old(frame)@.len() - old(frame)@.len() % 4 ==> final(frame)@[b] == clear_color@[b % 4],
        forall|b: int|
            old(frame)@.len() - old(frame)@.len() % 4 <= b < old(frame)@.len() ==> final(frame)@[b] == old(frame)@[b],
{
    let whole: usize = frame.len() - frame.len() % 4;
    let mut i: usize = 0;
    while i < whole
        invariant
            frame@.len() == old(frame)@.len(),
            whole == frame@.len() - frame@.len() % 4,
            i <= whole,
            forall|b: int| 0 <= b < i ==> frame@[b] == clear_color@[b % 4],
            forall|b: int| i <= b < frame@.len() ==> frame@[b] == old(frame)@[b],
        decreases whole - i,
    {
        frame[i] = clear_color[i % 4];
        i += 1;
    }
}

/// Draws the circle of radius `r` round the cell `(cx, cy)` in `color` in
/// a frame of `row_len` by `col_len` pixels with tiles of `tile_size`
/// pixels. Nothing is written unless these describe a canvas, every cell of
/// the circle has its tile on it and `frame` has its size.
pub fn draw_circle(
    frame: &mut [u8],
    row_len: usize,
    col_len: usize,
    tile_size: usize,
    cx: usize,
    cy: usize,
    r: u32,
    color: [u8; 4],
) -> (res: Result<(), CanvasError>)
    ensures
        !valid_config(row_len as int, col_len as int, tile_size as int) ==> res == Err::<(), CanvasError>(
            CanvasError::InvalidConfig,
        ),
        valid_config(row_len as int, col_len as int, tile_size as int) ==> {
            let canvas = Canvas::of(row_len as int, col_len as int, tile_size as int);
            &&& res is Ok <==> old(frame)@.len() == canvas.frame_len() && canvas.holds(
                circle_spec(cx as int, cy as int, r as int),
            )
            &&& res is Ok ==> final(frame)@ == canvas.painted(
                old(frame)@,
                circle_spec(cx as int, cy as int, r as int).to_set(),
                color@,
            )
            &&& res is Err ==> res == Err::<(), CanvasError>(CanvasError::OutOfBounds)
        },
        res is Err ==> final(frame)@ == old(frame)@,
{
    match Canvas::init(row_len, col_len, tile_size) {
        Ok(canvas) => canvas.draw_circle(frame, cx, cy, r, color),
        Err(e) => Err(e),
    }
}

} // verus!
