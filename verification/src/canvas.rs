//! The canvas: its configuration, the model of a frame as a sequence of
//! bytes, and the tile writer on which every other drawing routine rests.

use vstd::prelude::*;
use vstd::arithmetic::div_mod::lemma_fundamental_div_mod;
use vstd::arithmetic::div_mod::lemma_fundamental_div_mod_converse;
use crate::cell::as_cells;
use crate::draw::clear_frame;
pub use crate::geometry::{circle_coords, line_points};

verus! {

/// Why a canvas operation was refused.
#[derive(Clone, Copy, Debug, PartialEq, Eq, Structural)]
pub enum CanvasError {
    /// A tile to be written lies outside the grid, or the frame does not have
    /// the canvas's size.
    OutOfBounds,
    /// The pixel dimensions and tile size do not describe a canvas.
    InvalidConfig,
}

/// Whether pixel dimensions and a tile size describe a canvas: all positive,
/// both lengths whole multiples of the tile size and small enough for a grid
/// index to fit `i32`, and a frame of four bytes per pixel addressable.
pub open spec fn valid_config(row_len: int, col_len: int, tile_size: int) -> bool {
    &&& 0 < tile_size
    &&& 0 < row_len <= i32::MAX
    &&& 0 < col_len <= i32::MAX
    &&& row_len % tile_size == 0
    &&& col_len % tile_size == 0
    &&& row_len * col_len * 4 <= usize::MAX
}

/// An immutable canvas configuration: a pixel area cut into square tiles.
#[derive(Clone, Copy, Debug)]
pub struct Canvas {
    row_len: usize,
    col_len: usize,
    tile_size: usize,
}

impl Canvas {
    /// Pixels per row.
    pub closed spec fn spec_row_len(self) -> int {
        self.row_len as int
    }

    /// Pixel rows.
    pub closed spec fn spec_col_len(self) -> int {
        self.col_len as int
    }

    /// Pixels per tile side.
    pub closed spec fn spec_tile_size(self) -> int {
        self.tile_size as int
    }

    /// The canvas of the given pixel dimensions and tile size.
    pub closed spec fn of(row_len: int, col_len: int, tile_size: int) -> Canvas {
        Canvas { row_len: row_len as usize, col_len: col_len as usize, tile_size: tile_size as usize }
    }

    /// What holds of every canvas.
    pub open spec fn wf(self) -> bool {
        valid_config(self.spec_row_len(), self.spec_col_len(), self.spec_tile_size())
    }

    /// Every canvas is well formed.
    #[verifier::type_invariant]
    spec fn inv(self) -> bool {
        self.wf()
    }

    /// Number of tile columns.
    pub open spec fn spec_max_grid_x(self) -> int {
        self.spec_row_len() / self.spec_tile_size()
    }

    /// Number of tile rows.
    pub open spec fn spec_max_grid_y(self) -> int {
        self.spec_col_len() / self.spec_tile_size()
    }

    /// Whether the tile of cell `(x, y)` lies on the canvas.
    pub open spec fn in_grid(self, x: int, y: int) -> bool {
        0 <= x < self.spec_max_grid_x() && 0 <= y < self.spec_max_grid_y()
    }

    /// Bytes in a frame of this canvas.
    pub open spec fn frame_len(self) -> int {
        self.spec_row_len() * self.spec_col_len() * 4
    }

    /// Position in a frame of channel `channel` of the pixel in pixel row
    /// `row` (counted from the top) and pixel column `col`.
    pub open spec fn byte_index(self, row: int, col: int, channel: int) -> int {
        (row * self.spec_row_len() + col) * 4 + channel
    }

    /// The grid cell whose tile holds byte `b` of a frame: the pixel column
    /// counts tiles from the left, the pixel row from the bottom.
    pub open spec fn cell_of_byte(self, b: int) -> (int, int) {
        let stride = self.spec_row_len() * 4;
        let row = b / stride;
        let col = (b % stride) / 4;
        (col / self.spec_tile_size(), (self.spec_col_len() - 1 - row) / self.spec_tile_size())
    }

    /// The frame `before` with the tile of every cell in `cells` set to
    /// `color`, and every other byte as it was.
    pub open spec fn painted(self, before: Seq<u8>, cells: Set<(int, int)>, color: Seq<u8>) -> Seq<u8> {
        Seq::new(
            before.len(),
            |b: int|
                if cells.contains(self.cell_of_byte(b)) {
                    color[b % 4]
                } else {
                    before[b]
                },
        )
    }

    /// The grid index of a pointer position along one axis. `value` is in
    /// whole device pixels, two to a canvas pixel; the vertical axis of the
    /// screen runs downward, that of the grid upward. The index is clamped to
    /// `0 ..= max_grid`.
    pub open spec fn grid_index(self, xcoord: bool, value: int) -> int {
        let span = if xcoord {
            value
        } else {
            2 * self.spec_col_len() - value
        };
        let limit = if xcoord {
            self.spec_max_grid_x()
        } else {
            self.spec_max_grid_y()
        };
        let index = span / (2 * self.spec_tile_size());
        if span < 0 {
            0
        } else if index <= limit {
            index
        } else {
            limit
        }
    }

    /// Makes a canvas of `row_len` by `col_len` pixels with square tiles of
    /// `tile_size` pixels, or refuses the configuration.
    pub fn init(row_len: usize, col_len: usize, tile_size: usize) -> (res: Result<Canvas, CanvasError>)
        ensures
            res is Ok <==> valid_config(row_len as int, col_len as int, tile_size as int),
            res is Err ==> res == Err::<Canvas, CanvasError>(CanvasError::InvalidConfig),
            res is Ok ==> {
                &&& res->Ok_0 == Canvas::of(row_len as int, col_len as int, tile_size as int)
                &&& res->Ok_0.wf()
                &&& res->Ok_0.spec_row_len() == row_len
                &&& res->Ok_0.spec_col_len() == col_len
                &&& res->Ok_0.spec_tile_size() == tile_size
            },
    {
        if tile_size == 0 || row_len == 0 || col_len == 0 {
            return Err(CanvasError::InvalidConfig);
        }
        if row_len > 0x7fff_ffff || col_len > 0x7fff_ffff {
            return Err(CanvasError::InvalidConfig);
        }
        if row_len % tile_size != 0 || col_len % tile_size != 0 {
            return Err(CanvasError::InvalidConfig);
        }
        let pixels = match row_len.checked_mul(col_len) {
            Some(p) => p,
            None => {
                assert(row_len * col_len * 4 > usize::MAX) by (nonlinear_arith)
                    requires
                        row_len * col_len > usize::MAX,
                ;
                return Err(CanvasError::InvalidConfig);
            },
        };
        if pixels.checked_mul(4).is_none() {
            return Err(CanvasError::InvalidConfig);
        }
        Ok(Canvas { row_len, col_len, tile_size })
    }

    /// Pixels per row.
    pub fn row_len(&self) -> (n: usize)
        ensures
            n == self.spec_row_len(),
    {
        self.row_len
    }

    /// Pixel rows.
    pub fn col_len(&self) -> (n: usize)
        ensures
            n == self.spec_col_len(),
    {
        self.col_len
    }

    /// Pixels per tile side.
    pub fn tile_size(&self) -> (n: usize)
        ensures
            n == self.spec_tile_size(),
    {
        self.tile_size
    }

    /// Number of tile columns.
    pub fn max_grid_x(&self) -> (n: usize)
        ensures
            n == self.spec_max_grid_x(),
            self.wf(),
            0 < n <= i32::MAX,
            n * self.spec_tile_size() == self.spec_row_len(),
    {
        proof {
            use_type_invariant(self);
            lemma_exact_div(self.row_len as int, self.tile_size as int);
        }
        self.row_len / self.tile_size
    }

    /// Number of tile rows.
    pub fn max_grid_y(&self) -> (n: usize)
        ensures
            n == self.spec_max_grid_y(),
            self.wf(),
            0 < n <= i32::MAX,
            n * self.spec_tile_size() == self.spec_col_len(),
    {
        proof {
            use_type_invariant(self);
            lemma_exact_div(self.col_len as int, self.tile_size as int);
        }
        self.col_len / self.tile_size
    }

    /// Whether `frame` has the size of this canvas.
    pub fn fits(&self, frame: &[u8]) -> (ok: bool)
        ensures
            ok == (frame@.len() == self.frame_len()),
            self.wf(),
    {
        proof {
            use_type_invariant(self);
            assert(self.row_len * self.col_len <= self.row_len * self.col_len * 4) by (nonlinear_arith);
        }
        frame.len() == self.row_len * self.col_len * 4
    }

    /// Whether the tile of `cell` lies on the canvas.
    pub fn in_bounds(&self, cell: (i32, i32)) -> (ok: bool)
        ensures
            ok == self.in_grid(cell.0 as int, cell.1 as int),
    {
        let cols = self.max_grid_x();
        let rows = self.max_grid_y();
        0 <= cell.0 && 0 <= cell.1 && (cell.0 as usize) < cols && (cell.1 as usize) < rows
    }

    /// Overwrites every whole pixel of `frame` with `clear_color`; up to
    /// three bytes behind the last whole pixel stay as they are.
    pub fn clear(&self, frame: &mut [u8], clear_color: [u8; 4])
        ensures
            final(frame)@.len() == old(frame)@.len(),
            forall|b: int|
                0 <= b < old(frame)@.len() - old(frame)@.len() % 4 ==> final(frame)@[b] == clear_color@[b % 4],
            forall|b: int|
                old(frame)@.len() - old(frame)@.len() % 4 <= b < old(frame)@.len() ==> final(frame)@[b] == old(frame)@[b],
    {
        clear_frame(frame, clear_color);
    }

    /// Maps a pointer position along one axis, in whole device pixels, to a
    /// grid index no larger than the number of tiles along that axis.
    pub fn mouse_to_canvas(&self, xcoord: bool, value: i64) -> (index: usize)
        ensures
            index == self.grid_index(xcoord, value as int),
            xcoord ==> index <= self.spec_max_grid_x(),
            !xcoord ==> index <= self.spec_max_grid_y(),
    {
        let limit = if xcoord {
            self.max_grid_x()
        } else {
            self.max_grid_y()
        };
        let span: i128 = if xcoord {
            value as i128
        } else {
            2 * (self.col_len as i128) - value as i128
        };
        if span < 0 {
            return 0;
        }
        let index: i128 = span / (2 * (self.tile_size as i128));
        if index <= limit as i128 {
            index as usize
        } else {
            limit
        }
    }

    /// Sets the tile of grid cell `(pos_x, pos_y)` to `color`. Nothing is
    /// written unless the whole tile lies on the canvas and `frame` has the
    /// canvas's size.
    pub fn draw_tile(&self, frame: &mut [u8], pos_x: usize, pos_y: usize, color: [u8; 4]) -> (res: Result<
        (),
        CanvasError,
    >)
        ensures
            res is Ok <==> self.in_grid(pos_x as int, pos_y as int) && old(frame)@.len() == self.frame_len(),
            res is Ok ==> final(frame)@ == self.painted(old(frame)@, set![(pos_x as int, pos_y as int)], color@),
            res is Err ==> res == Err::<(), CanvasError>(CanvasError::OutOfBounds) && final(frame)@ == old(frame)@,
    {
        let cols = self.max_grid_x();
        let rows = self.max_grid_y();
        if !self.fits(frame) || pos_x >= cols || pos_y >= rows {
            return Err(CanvasError::OutOfBounds);
        }
        let ts = self.tile_size;
        let ghost w = self.row_len as int;
        let ghost h = self.col_len as int;
        let ghost x = pos_x as int;
        let ghost y = pos_y as int;
        proof {
            lemma_tile_window(w, h, ts as int, cols as int, rows as int, x, y);
            assert(w * 4 <= w * h * 4 && h * (4 * w) == w * h * 4) by (nonlinear_arith)
                requires
                    0 < w,
                    0 < h,
            ;
        }
        let stride: usize = self.row_len * 4;
        let top: usize = self.col_len - (pos_y + 1) * ts;
        let left: usize = pos_x * ts * 4;
        let span: usize = ts * 4;
        let mut j: usize = 0;
        while j < ts
            invariant
                self.wf(),
                w == self.spec_row_len(),
                h == self.spec_col_len(),
                ts == self.spec_tile_size(),
                stride == 4 * w,
                0 < stride,
                span == 4 * ts,
                left == 4 * (x * ts),
                left + span <= stride,
                top + ts <= h,
                j <= ts,
                frame@.len() == old(frame)@.len(),
                frame@.len() == h * stride,
                h * stride <= usize::MAX,
                forall|b: int|
                    0 <= b < frame@.len() ==> #[trigger] frame@[b] == if in_window(
                        b,
                        stride as int,
                        top as int,
                        j as int,
                        left as int,
                        span as int,
                        0,
                    ) {
                        color@[b % 4]
                    } else {
                        old(frame)@[b]
                    },
            decreases ts - j,
        {
            let row: usize = top + j;
            proof {
                lemma_row_start(row as int, h, stride as int);
            }
            let start: usize = row * stride + left;
            let mut k: usize = 0;
            while k < span
                invariant
                    stride == 4 * w,
                    0 < stride,
                    span == 4 * ts,
                    left == 4 * (x * ts),
                    left + span <= stride,
                    row == top + j,
                    k <= span,
                    start == row * stride + left,
                    start + span <= frame@.len(),
                    frame@.len() == old(frame)@.len(),
                    forall|b: int|
                        0 <= b < frame@.len() ==> #[trigger] frame@[b] == if in_window(
                            b,
                            stride as int,
                            top as int,
                            j as int,
                            left as int,
                            span as int,
                            k as int,
                        ) {
                            color@[b % 4]
                        } else {
                            old(frame)@[b]
                        },
                decreases span - k,
            {
                let ghost prev = frame@;
                let at: usize = start + k;
                frame[at] = color[k % 4];
                proof {
                    lemma_fundamental_div_mod_converse(at as int, stride as int, row as int, left as int + k as int);
                    assert(at == 4 * (row * w + x * ts) + k) by (nonlinear_arith)
                        requires
                            at == row * stride + left + k,
                            stride == 4 * w,
                            left == 4 * (x * ts),
                    ;
                    assert(at as int % 4 == k as int % 4);
                    assert(stride * row == row * stride) by (nonlinear_arith);
                    assert forall|b: int| 0 <= b < frame@.len() implies #[trigger] frame@[b] == if in_window(
                        b,
                        stride as int,
                        top as int,
                        j as int,
                        left as int,
                        span as int,
                        k as int + 1,
                    ) {
                        color@[b % 4]
                    } else {
                        old(frame)@[b]
                    } by {
                        lemma_fundamental_div_mod(b, stride as int);
                        if b != at {
                            assert(frame@[b] == prev[b]);
                            assert(in_window(b, stride as int, top as int, j as int, left as int, span as int, k as int + 1)
                                == in_window(b, stride as int, top as int, j as int, left as int, span as int, k as int));
                        }
                    }
                }
                k += 1;
            }
            j += 1;
        }
        proof {
            let after = self.painted(old(frame)@, set![(x, y)], color@);
            assert forall|b: int| 0 <= b < frame@.len() implies frame@[b] == after[b] by {
                self.lemma_tile_bytes(x, y, b);
                assert(stride as int == self.spec_row_len() * 4);
            }
            assert(frame@ =~= after);
        }
        Ok(())
    }

    /// Whether every cell of `cells` has its tile on the canvas.
    pub open spec fn holds(self, cells: Seq<(int, int)>) -> bool {
        forall|i: int| 0 <= i < cells.len() ==> self.in_grid(#[trigger] cells[i].0, cells[i].1)
    }

    /// Whether every point of `points` has its tile on the canvas.
    pub(crate) fn on_canvas(&self, points: &Vec<(i32, i32)>) -> (ok: bool)
        ensures
            ok == self.holds(as_cells(points@)),
    {
        let cols = self.max_grid_x();
        let rows = self.max_grid_y();
        let mut i: usize = 0;
        while i < points.len()
            invariant
                i <= points@.len(),
                cols == self.spec_max_grid_x(),
                rows == self.spec_max_grid_y(),
                cols <= i32::MAX,
                rows <= i32::MAX,
                forall|j: int| 0 <= j < i ==> self.in_grid(#[trigger] as_cells(points@)[j].0, as_cells(points@)[j].1),
            decreases points@.len() - i,
        {
            let p = points[i];
            if p.0 < 0 || p.1 < 0 || p.0 as usize >= cols || p.1 as usize >= rows {
                assert(!self.in_grid(as_cells(points@)[i as int].0, as_cells(points@)[i as int].1));
                return false;
            }
            i += 1;
        }
        true
    }

    /// Sets the tile of every point of `points` to `color`.
    pub(crate) fn paint_cells(&self, frame: &mut [u8], points: &Vec<(i32, i32)>, color: [u8; 4])
        requires
            old(frame)@.len() == self.frame_len(),
            self.holds(as_cells(points@)),
        ensures
            final(frame)@ == self.painted(old(frame)@, as_cells(points@).to_set(), color@),
    {
        let ghost cells = as_cells(points@);
        let mut i: usize = 0;
        while i < points.len()
            invariant
                i <= points@.len(),
                cells == as_cells(points@),
                self.holds(cells),
                frame@.len() == self.frame_len(),
                frame@.len() == old(frame)@.len(),
                forall|b: int|
                    0 <= b < frame@.len() ==> #[trigger] frame@[b] == if among(cells, i as int, self.cell_of_byte(b)) {
                        color@[b % 4]
                    } else {
                        old(frame)@[b]
                    },
            decreases points@.len() - i,
        {
            let p = points[i];
            let ghost prev = frame@;
            assert(self.in_grid(cells[i as int].0, cells[i as int].1));
            let drawn = self.draw_tile(frame, p.0 as usize, p.1 as usize, color);
            proof {
                assert(drawn is Ok);
                assert forall|b: int| 0 <= b < frame@.len() implies #[trigger] frame@[b] == if among(
                    cells,
                    i as int + 1,
                    self.cell_of_byte(b),
                ) {
                    color@[b % 4]
                } else {
                    old(frame)@[b]
                } by {
                    let c = self.cell_of_byte(b);
                    if among(cells, i as int, c) {
                        let j = choose|j: int| 0 <= j < i && cells[j] == c;
                        assert(0 <= j < i + 1 && cells[j] == c);
                    }
                    if c == cells[i as int] {
                        assert(0 <= i < i + 1 && cells[i as int] == c);
                    }
                    if among(cells, i as int + 1, c) {
                        let j = choose|j: int| 0 <= j < i + 1 && cells[j] == c;
                        if j < i {
                            assert(among(cells, i as int, c));
                        }
                    }
                }
            }
            i += 1;
        }
        proof {
            let after = self.painted(old(frame)@, cells.to_set(), color@);
            assert forall|b: int| 0 <= b < frame@.len() implies frame@[b] == after[b] by {
                let c = self.cell_of_byte(b);
                if among(cells, points@.len() as int, c) {
                    let j = choose|j: int| 0 <= j < points@.len() && cells[j] == c;
                    assert(cells.contains(c));
                }
                if cells.contains(c) {
                    let j = choose|j: int| 0 <= j < cells.len() && cells[j] == c;
                    assert(among(cells, points@.len() as int, c));
                }
            }
            assert(frame@ =~= after);
        }
    }

    /// A byte belongs to the tile of an on-canvas cell exactly if its pixel
    /// row and its offset in that row fall in the tile's window.
    pub proof fn lemma_tile_bytes(self, x: int, y: int, b: int)
        requires
            self.wf(),
            self.in_grid(x, y),
            0 <= b < self.frame_len(),
        ensures
            self.cell_of_byte(b) == (x, y) <==> {
                let stride = 4 * self.spec_row_len();
                let ts = self.spec_tile_size();
                let top = self.spec_col_len() - (y + 1) * ts;
                &&& top <= b / stride < top + ts
                &&& 4 * (x * ts) <= b % stride < 4 * (x * ts) + 4 * ts
            },
    {
        let w = self.spec_row_len();
        let h = self.spec_col_len();
        let ts = self.spec_tile_size();
        let stride = 4 * w;
        assert(stride == w * 4);
        let row = b / stride;
        let off = b % stride;
        let col = off / 4;
        lemma_fundamental_div_mod(b, stride);
        assert(0 <= row < h) by (nonlinear_arith)
            requires
                0 <= b < w * h * 4,
                stride == 4 * w,
                0 < w,
                b == stride * row + off,
                0 <= off < stride,
        ;
        lemma_exact_div(h, ts);
        let top = h - (y + 1) * ts;
        lemma_div_window(col, ts, x);
        lemma_div_window(h - 1 - row, ts, y);
        assert((y + 1) * ts == y * ts + ts) by (nonlinear_arith);
    }

    /// Reading a frame back: pixel `(i, j)` of the square of an on-canvas
    /// cell `(x, y)` lies in the frame, and after cells were painted each of
    /// its channels holds the colour if the cell was among them, and else
    /// what it held before. So a tile that was drawn reads back as drawn, and
    /// the cells that a painted frame shows are the cells that were painted.
    pub proof fn lemma_read_back(
        self,
        before: Seq<u8>,
        cells: Set<(int, int)>,
        color: Seq<u8>,
        x: int,
        y: int,
        i: int,
        j: int,
        channel: int,
    )
        requires
            self.wf(),
            self.in_grid(x, y),
            before.len() == self.frame_len(),
            0 <= i < self.spec_tile_size(),
            0 <= j < self.spec_tile_size(),
            0 <= channel < 4,
        ensures
            ({
                let row = self.spec_col_len() - 1 - (y * self.spec_tile_size() + j);
                let col = x * self.spec_tile_size() + i;
                let b = self.byte_index(row, col, channel);
                &&& 0 <= row < self.spec_col_len()
                &&& 0 <= col < self.spec_row_len()
                &&& 0 <= b < self.frame_len()
                &&& self.cell_of_byte(b) == (x, y)
                &&& cells.contains((x, y)) ==> self.painted(before, cells, color)[b] == color[channel]
                &&& !cells.contains((x, y)) ==> self.painted(before, cells, color)[b] == before[b]
            }),
    {
        let w = self.spec_row_len();
        let h = self.spec_col_len();
        let ts = self.spec_tile_size();
        let stride = 4 * w;
        assert(stride == w * 4);
        lemma_exact_div(w, ts);
        lemma_exact_div(h, ts);
        lemma_tile_window(w, h, ts, self.spec_max_grid_x(), self.spec_max_grid_y(), x, y);
        let row = h - 1 - (y * ts + j);
        let col = x * ts + i;
        let b = self.byte_index(row, col, channel);
        assert((y + 1) * ts == y * ts + ts) by (nonlinear_arith);
        assert(b == row * stride + (4 * col + channel)) by (nonlinear_arith)
            requires
                b == (row * w + col) * 4 + channel,
                stride == 4 * w,
        ;
        lemma_row_start(row, h, stride);
        lemma_fundamental_div_mod_converse(b, stride, row, 4 * col + channel);
        assert(h * stride == w * h * 4) by (nonlinear_arith)
            requires
                stride == 4 * w,
        ;
        self.lemma_tile_bytes(x, y, b);
        assert(b % 4 == channel);
    }
}

/// Whether byte `b` lies in the byte window `left .. left + span` of one of
/// the `rows` pixel rows from `top` on, or among the first `extra` bytes of
/// that window in the row after them.
pub(crate) open spec fn in_window(b: int, stride: int, top: int, rows: int, left: int, span: int, extra: int) -> bool {
    let row = b / stride;
    let off = b % stride;
    (top <= row < top + rows && left <= off < left + span) || (row == top + rows && left <= off < left + extra)
}

/// Whether `c` is among the first `n` cells of `cells`.
pub(crate) open spec fn among(cells: Seq<(int, int)>, n: int, c: (int, int)) -> bool {
    exists|j: int| 0 <= j < n && cells[j] == c
}

/// A length that is a whole multiple of a positive divisor is the quotient
/// times the divisor.
pub(crate) proof fn lemma_exact_div(n: int, d: int)
    requires
        0 < d,
        0 < n,
        n % d == 0,
    ensures
        (n / d) * d == n,
        0 < n / d <= n,
{
    lemma_fundamental_div_mod(n, d);
    assert((n / d) * d == d * (n / d)) by (nonlinear_arith);
    assert(0 < n / d <= n) by (nonlinear_arith)
        requires
            (n / d) * d == n,
            0 < d,
            0 < n,
    ;
}

/// A quotient by a positive divisor is `q` exactly on the window
/// `q * d .. q * d + d`.
pub(crate) proof fn lemma_div_window(n: int, d: int, q: int)
    requires
        0 < d,
    ensures
        n / d == q <==> q * d <= n < q * d + d,
{
    lemma_fundamental_div_mod(n, d);
    if q * d <= n < q * d + d {
        lemma_fundamental_div_mod_converse(n, d, q, n - q * d);
    }
    assert(d * (n / d) == (n / d) * d) by (nonlinear_arith);
}

/// The pixel window of the tile of an on-canvas cell lies on the canvas.
pub(crate) proof fn lemma_tile_window(w: int, h: int, ts: int, cols: int, rows: int, x: int, y: int)
    requires
        0 < ts,
        cols * ts == w,
        rows * ts == h,
        0 <= x < cols,
        0 <= y < rows,
    ensures
        0 <= x * ts,
        x * ts + ts <= w,
        0 <= y * ts,
        (y + 1) * ts <= h,
        0 < (y + 1) * ts,
        (y + 1) * ts == y * ts + ts,
        4 * (x * ts) + 4 * ts <= 4 * w,
        x * ts * 4 == 4 * (x * ts),
{
    assert(0 <= x * ts && x * ts + ts <= cols * ts) by (nonlinear_arith)
        requires
            0 < ts,
            0 <= x < cols,
    ;
    assert(0 <= y * ts && (y + 1) * ts <= rows * ts && 0 < (y + 1) * ts && (y + 1) * ts == y * ts + ts)
        by (nonlinear_arith)
        requires
            0 < ts,
            0 <= y < rows,
    ;
}

/// The bytes of pixel row `row` lie in the frame.
pub(crate) proof fn lemma_row_start(row: int, h: int, stride: int)
    requires
        0 <= row < h,
        0 < stride,
    ensures
        0 <= row * stride,
        row * stride + stride <= h * stride,
{
    assert(0 <= row * stride && row * stride + stride <= h * stride) by (nonlinear_arith)
        requires
            0 <= row < h,
            0 < stride,
    ;
}

} // verus!
