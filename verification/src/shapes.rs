//! Lines and circles drawn into a frame: the cells that the generators
//! give, each painted as a tile.

use vstd::prelude::*;
use crate::canvas::{Canvas, CanvasError};
use crate::cell::{cell_at, dist};
use crate::geometry::{
    circle_coords, circle_spec, lemma_circle_extremes, lemma_circle_in_box, lemma_line_ends, lemma_line_in_box,
    line_spec, points_line_high, points_line_low, trace_spec,
};

verus! {

impl Canvas {
    /// Draws the line between two grid points, both included, in `color`.
    /// Nothing is written unless every cell of the line has its tile on the
    /// canvas and `frame` has the canvas's size.
    pub fn draw_line(&self, frame: &mut [u8], start: (i32, i32), end: (i32, i32), color: [u8; 4]) -> (res: Result<
        (),
        CanvasError,
    >)
        ensures
            res is Ok <==> old(frame)@.len() == self.frame_len() && self.holds(
                line_spec(cell_at(start), cell_at(end)),
            ),
            res is Ok ==> final(frame)@ == self.painted(
                old(frame)@,
                line_spec(cell_at(start), cell_at(end)).to_set(),
                color@,
            ),
            res is Err ==> res == Err::<(), CanvasError>(CanvasError::OutOfBounds) && final(frame)@ == old(frame)@,
    {
        let ghost line = line_spec(cell_at(start), cell_at(end));
        proof {
            lemma_line_ends(cell_at(start), cell_at(end));
        }
        if !self.fits(frame) {
            return Err(CanvasError::OutOfBounds);
        }
        if !self.in_bounds(start) || !self.in_bounds(end) {
            proof {
                assert(line.first() == line[0] && line.last() == line[line.len() - 1]);
                assert(!self.in_grid(line[0].0, line[0].1) || !self.in_grid(
                    line[line.len() - 1].0,
                    line[line.len() - 1].1,
                ));
            }
            return Err(CanvasError::OutOfBounds);
        }
        proof {
            assert forall|i: int| 0 <= i < line.len() implies self.in_grid(#[trigger] line[i].0, line[i].1) by {
                lemma_line_in_box(cell_at(start), cell_at(end), i);
            }
        }
        let dx: i64 = end.0 as i64 - start.0 as i64;
        let dy: i64 = end.1 as i64 - start.1 as i64;
        let wide: i64 = if dx < 0 {
            -dx
        } else {
            dx
        };
        let high: i64 = if dy < 0 {
            -dy
        } else {
            dy
        };
        if high < wide {
            if start.0 > end.0 {
                self.draw_line_low(frame, end, start, color);
            } else {
                self.draw_line_low(frame, start, end, color);
            }
        } else {
            if start.1 > end.1 {
                self.draw_line_high(frame, end, start, color);
            } else {
                self.draw_line_high(frame, start, end, color);
            }
        }
        Ok(())
    }

    /// Draws a line that is wider than high, from its left end.
    fn draw_line_low(&self, frame: &mut [u8], start: (i32, i32), end: (i32, i32), color: [u8; 4])
        requires
            old(frame)@.len() == self.frame_len(),
            start.0 <= end.0,
            dist(start.1 as int, end.1 as int) <= end.0 - start.0,
            self.holds(trace_spec(start.0 as int, start.1 as int, end.0 as int, end.1 as int, false)),
        ensures
            final(frame)@ == self.painted(
                old(frame)@,
                trace_spec(start.0 as int, start.1 as int, end.0 as int, end.1 as int, false).to_set(),
                color@,
            ),
    {
        let points = points_line_low(start, end);
        self.paint_cells(frame, &points, color);
    }

    /// Draws a line that is at least as high as wide, from its lower end.
    fn draw_line_high(&self, frame: &mut [u8], start: (i32, i32), end: (i32, i32), color: [u8; 4])
        requires
            old(frame)@.len() == self.frame_len(),
            start.1 <= end.1,
            dist(start.0 as int, end.0 as int) <= end.1 - start.1,
            self.holds(trace_spec(start.1 as int, start.0 as int, end.1 as int, end.0 as int, true)),
        ensures
            final(frame)@ == self.painted(
                old(frame)@,
                trace_spec(start.1 as int, start.0 as int, end.1 as int, end.0 as int, true).to_set(),
                color@,
            ),
    {
        let points = points_line_high(start, end);
        self.paint_cells(frame, &points, color);
    }

    /// Draws the circle of radius `r` round the cell `(cx, cy)` in `color`.
    /// Nothing is written unless every cell of the circle has its tile on
    /// the canvas and `frame` has the canvas's size.
    pub fn draw_circle(&self, frame: &mut [u8], cx: usize, cy: usize, r: u32, color: [u8; 4]) -> (res: Result<
        (),
        CanvasError,
    >)
        ensures
            res is Ok <==> old(frame)@.len() == self.frame_len() && self.holds(
                circle_spec(cx as int, cy as int, r as int),
            ),
            res is Ok ==> final(frame)@ == self.painted(
                old(frame)@,
                circle_spec(cx as int, cy as int, r as int).to_set(),
                color@,
            ),
            res is Err ==> res == Err::<(), CanvasError>(CanvasError::OutOfBounds) && final(frame)@ == old(frame)@,
    {
        let ghost circle = circle_spec(cx as int, cy as int, r as int);
        proof {
            lemma_circle_extremes(cx as int, cy as int, r as int);
        }
        if !self.fits(frame) {
            return Err(CanvasError::OutOfBounds);
        }
        let cols = self.max_grid_x();
        let rows = self.max_grid_y();
        if cx >= cols || cy >= rows {
            proof {
                assert(!self.in_grid(circle[0].0, circle[0].1) || !self.in_grid(circle[1].0, circle[1].1));
            }
            return Err(CanvasError::OutOfBounds);
        }
        if r as usize > cx || r as usize > cy || r as usize >= cols - cx || r as usize >= rows - cy {
            proof {
                assert(!self.in_grid(circle[0].0, circle[0].1) || !self.in_grid(circle[1].0, circle[1].1)
                    || !self.in_grid(circle[3].0, circle[3].1) || !self.in_grid(circle[5].0, circle[5].1));
            }
            return Err(CanvasError::OutOfBounds);
        }
        proof {
            assert forall|i: int| 0 <= i < circle.len() implies self.in_grid(#[trigger] circle[i].0, circle[i].1) by {
                lemma_circle_in_box(cx as int, cy as int, r as int, i);
            }
        }
        let points = circle_coords(cx as i32, cy as i32, r as i32);
        self.paint_cells(frame, &points, color);
        Ok(())
    }
}

} // verus!
