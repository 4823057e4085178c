//! Sprites: a decoded image drawn tile by tile, one tile for each pixel
//! that is not fully transparent.

use image::DynamicImage;
use image::GenericImageView;
use vstd::prelude::*;
use vstd::arithmetic::div_mod::lemma_fundamental_div_mod;
use vstd::arithmetic::div_mod::lemma_fundamental_div_mod_converse;
use crate::canvas::{Canvas, CanvasError};

verus! {

/// A decoded image of the `image` crate. Nothing in it is visible to the
/// verifier; its pixels are read through the two functions below.
#[verifier::external_type_specification]
#[verifier::external_body]
pub struct ExDynamicImage(image::DynamicImage);

/// Width and height of an image, in pixels.
pub uninterp spec fn image_size(sprite: &DynamicImage) -> (u32, u32);

/// The pixels of an image as RGBA values, row by row from the top, each
/// row from the left.
pub uninterp spec fn image_pixels(sprite: &DynamicImage) -> Seq<[u8; 4]>;

/// Calls `GenericImageView::dimensions` on the image: its width and
/// height.
#[verifier::external_body]
fn sprite_size(sprite: &DynamicImage) -> (size: (u32, u32))
    ensures
        size == image_size(sprite),
{
    sprite.dimensions()
}

/// Calls `GenericImageView::pixels` on the image and collects the colour of
/// each pixel that the iterator hands out. The iterator walks the rows from
/// the top and each row from the left, so there is one value for each
/// pixel. It reads outside an image that has rows but no columns, which
/// the contract keeps out.
#[verifier::external_body]
fn sprite_pixels(sprite: &DynamicImage) -> (pixels: Vec<[u8; 4]>)
    requires
        image_size(sprite).0 > 0 || image_size(sprite).1 <= 1,
    ensures
        pixels@ == image_pixels(sprite),
        pixels@.len() == image_size(sprite).0 * image_size(sprite).1,
{
    sprite.pixels().map(|pixel| pixel.2.0).collect()
}

/// Whether pixel `i` of a sprite is drawn: it exists and is not fully
/// transparent.
pub open spec fn shows(pixels: Seq<[u8; 4]>, i: int) -> bool {
    0 <= i < pixels.len() && pixels[i]@[3] != 0
}

/// The cell on which pixel `i` of a sprite of the given width falls when
/// the sprite is placed at `(x, y)`: columns run to the right, and the rows
/// of the sprite run up the grid.
pub open spec fn sprite_cell(width: int, x: int, y: int, i: int) -> (int, int) {
    (x + i % width, y + i / width)
}

/// The pixel of a sprite of the given width, placed at `(x, y)`, that
/// falls on cell `c`, if `c` lies in the columns of the sprite and not
/// below it.
pub open spec fn sprite_index(width: int, x: int, y: int, c: (int, int)) -> Option<int> {
    if 0 <= c.0 - x < width && 0 <= c.1 - y {
        Some((c.1 - y) * width + (c.0 - x))
    } else {
        None
    }
}

impl Canvas {
    /// Whether every pixel of the sprite that is drawn has its tile on the
    /// canvas.
    pub open spec fn sprite_fits(self, width: int, pixels: Seq<[u8; 4]>, x: int, y: int) -> bool {
        forall|i: int| #[trigger]
            shows(pixels, i) ==> self.in_grid(sprite_cell(width, x, y, i).0, sprite_cell(width, x, y, i).1)
    }

    /// The frame `before` with the sprite stamped on it: the tile of each
    /// cell on which a drawn pixel falls has that pixel's colour.
    pub open spec fn stamped(self, before: Seq<u8>, width: int, pixels: Seq<[u8; 4]>, x: int, y: int) -> Seq<u8> {
        Seq::new(
            before.len(),
            |b: int|
                match sprite_index(width, x, y, self.cell_of_byte(b)) {
                    Some(i) => if shows(pixels, i) {
                        pixels[i]@[b % 4]
                    } else {
                        before[b]
                    },
                    None => before[b],
                },
        )
    }

    /// Draws an image with its first pixel on cell `(x, y)`, one tile for
    /// each pixel that is not fully transparent, in that pixel's colour.
    /// Nothing is written unless each of these tiles lies on the canvas and
    /// `frame` has the canvas's size.
    pub fn draw_sprite(&self, frame: &mut [u8], sprite: &DynamicImage, x: usize, y: usize) -> (res: Result<
        (),
        CanvasError,
    >)
        ensures
            res is Ok <==> old(frame)@.len() == self.frame_len() && (image_size(sprite).0 > 0
                ==> self.sprite_fits(image_size(sprite).0 as int, image_pixels(sprite), x as int, y as int)),
            res is Ok ==> final(frame)@ == self.stamped(
                old(frame)@,
                image_size(sprite).0 as int,
                image_pixels(sprite),
                x as int,
                y as int,
            ),
            res is Err ==> res == Err::<(), CanvasError>(CanvasError::OutOfBounds) && final(frame)@ == old(frame)@,
    {
        let size = sprite_size(sprite);
        if size.0 == 0 {
            if !self.fits(frame) {
                return Err(CanvasError::OutOfBounds);
            }
            assert(frame@ =~= self.stamped(old(frame)@, 0, image_pixels(sprite), x as int, y as int));
            return Ok(());
        }
        let pixels = sprite_pixels(sprite);
        self.draw_pixels(frame, size.0 as usize, &pixels, x, y)
    }

    /// Draws a sprite given as a row of RGBA values, `width` to each row of
    /// the sprite, with its first pixel on cell `(x, y)`. A sprite of width
    /// zero has nothing to draw. Nothing is written unless the tile of each
    /// pixel that is not fully transparent lies on the canvas and `frame`
    /// has the canvas's size.
    pub fn draw_pixels(&self, frame: &mut [u8], width: usize, pixels: &Vec<[u8; 4]>, x: usize, y: usize) -> (res:
        Result<(), CanvasError>)
        ensures
            res is Ok <==> old(frame)@.len() == self.frame_len() && (width > 0 ==> self.sprite_fits(
                width as int,
                pixels@,
                x as int,
                y as int,
            )),
            res is Ok ==> final(frame)@ == self.stamped(old(frame)@, width as int, pixels@, x as int, y as int),
            res is Err ==> res == Err::<(), CanvasError>(CanvasError::OutOfBounds) && final(frame)@ == old(frame)@,
    {
        if !self.fits(frame) {
            return Err(CanvasError::OutOfBounds);
        }
        if width == 0 {
            assert(frame@ =~= self.stamped(old(frame)@, 0, pixels@, x as int, y as int));
            return Ok(());
        }
        let cols = self.max_grid_x();
        let rows = self.max_grid_y();
        let mut i: usize = 0;
        while i < pixels.len()
            invariant
                i <= pixels@.len(),
                0 < width,
                cols == self.spec_max_grid_x(),
                rows == self.spec_max_grid_y(),
                forall|k: int|
                    0 <= k < i && #[trigger] shows(pixels@, k) ==> self.in_grid(
                        sprite_cell(width as int, x as int, y as int, k).0,
                        sprite_cell(width as int, x as int, y as int, k).1,
                    ),
            decreases pixels@.len() - i,
        {
            if pixels[i][3] != 0 {
                let right = i % width;
                let up = i / width;
                if x >= cols || right >= cols - x || y >= rows || up >= rows - y {
                    assert(shows(pixels@, i as int));
                    return Err(CanvasError::OutOfBounds);
                }
            }
            i += 1;
        }
        let mut i: usize = 0;
        while i < pixels.len()
            invariant
                i <= pixels@.len(),
                0 < width,
                self.wf(),
                self.sprite_fits(width as int, pixels@, x as int, y as int),
                frame@.len() == self.frame_len(),
                frame@.len() == old(frame)@.len(),
                forall|b: int|
                    0 <= b < frame@.len() ==> #[trigger] frame@[b] == match sprite_index(
                        width as int,
                        x as int,
                        y as int,
                        self.cell_of_byte(b),
                    ) {
                        Some(k) => if k < i && shows(pixels@, k) {
                            pixels@[k]@[b % 4]
                        } else {
                            old(frame)@[b]
                        },
                        None => old(frame)@[b],
                    },
            decreases pixels@.len() - i,
        {
            if pixels[i][3] != 0 {
                let ghost prev = frame@;
                let ghost cell = sprite_cell(width as int, x as int, y as int, i as int);
                assert(shows(pixels@, i as int));
                let drawn = self.draw_tile(frame, x + i % width, y + i / width, pixels[i]);
                proof {
                    assert(drawn is Ok);
                    lemma_fundamental_div_mod(i as int, width as int);
                    assert((i as int / width as int) * width == width * (i as int / width as int))
                        by (nonlinear_arith);
                    assert(sprite_index(width as int, x as int, y as int, cell) == Some(i as int));
                    assert forall|b: int| 0 <= b < frame@.len() implies #[trigger] frame@[b] == match sprite_index(
                        width as int,
                        x as int,
                        y as int,
                        self.cell_of_byte(b),
                    ) {
                        Some(k) => if k < i + 1 && shows(pixels@, k) {
                            pixels@[k]@[b % 4]
                        } else {
                            old(frame)@[b]
                        },
                        None => old(frame)@[b],
                    } by {
                        let c = self.cell_of_byte(b);
                        if c != cell {
                            assert(frame@[b] == prev[b]);
                            if sprite_index(width as int, x as int, y as int, c) == Some(i as int) {
                                lemma_fundamental_div_mod_converse(i as int, width as int, c.1 - y, c.0 - x);
                            }
                        }
                    }
                }
            }
            i += 1;
        }
        proof {
            assert(frame@ =~= self.stamped(old(frame)@, width as int, pixels@, x as int, y as int));
        }
        Ok(())
    }
}

} // verus!
