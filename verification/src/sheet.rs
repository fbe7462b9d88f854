//! Cutting an RGBA sprite sheet: its alpha channel is segmented into sprites
//! and the pixels of each sprite are cropped out of the sheet.

use vstd::prelude::*;
use crate::sprites::{find_sprites, scan, within_image, AlphaGrid, SpriteRect};

verus! {

/// An RGBA image: four bytes per pixel, pixels row after row.
pub struct RgbaSheet {
    pub width: u32,
    pub height: u32,
    pub pixels: Vec<u8>,
}

impl RgbaSheet {
    /// Four bytes for every pixel.
    pub open spec fn wf(&self) -> bool {
        self.pixels@.len() == 4 * (self.width as int * self.height as int)
    }
}

/// The alpha channel of the pixels: the fourth byte of each pixel.
pub open spec fn alpha_of(pixels: Seq<u8>, pixel_count: int) -> Seq<u8> {
    Seq::new(pixel_count as nat, |i: int| pixels[4 * i + 3])
}

/// Law: the alpha of each pixel is the pixel's fourth byte, unchanged; so a
/// pixel of a wf sheet is opaque in its alpha grid exactly when that byte is
/// not zero.
pub proof fn lemma_alpha_is_fourth_byte(pixels: Seq<u8>, pixel_count: int, i: int)
    requires
        0 <= i < pixel_count,
    ensures
        alpha_of(pixels, pixel_count).len() == pixel_count,
        alpha_of(pixels, pixel_count)[i] == pixels[4 * i + 3],
        alpha_of(pixels, pixel_count)[i] > 0 <==> pixels[4 * i + 3] != 0,
{
}

/// The bytes of the pixels inside `r` of an image `width` pixels wide, row
/// after row, four bytes per pixel.
pub open spec fn crop_bytes(pixels: Seq<u8>, width: int, r: SpriteRect) -> Seq<u8> {
    Seq::new(
        (4 * (r.width as int * r.height as int)) as nat,
        |k: int|
            pixels[4 * ((r.y + (k / 4) / (r.width as int)) * width + r.x + (k / 4) % (
            r.width as int)) + k % 4],
    )
}

/// `image::imageops::crop_imm` on the sheet, copied out with `to_image` and
/// `into_raw`. For a rectangle inside the image `crop_imm` keeps the rectangle
/// as given, and the copy holds its pixels row after row, four bytes each.
#[verifier::external_body]
fn crop_rgba(width: u32, height: u32, pixels: &Vec<u8>, r: SpriteRect) -> (out: Vec<u8>)
    requires
        pixels@.len() == 4 * (width as int * height as int),
        r.x + r.width <= width,
        r.y + r.height <= height,
    ensures
        out@ == crop_bytes(pixels@, width as int, r),
{
    match image::RgbaImage::from_raw(width, height, pixels.clone()) {
        Some(img) => image::imageops::crop_imm(&img, r.x, r.y, r.width, r.height).to_image().into_raw(),
        None => Vec::new(),
    }
}

/// The result of cutting a sheet.
pub struct SheetCut {
    /// The alpha channel the sprites were found in.
    pub grid: AlphaGrid,
    /// The bounding box of every sprite, in scan order.
    pub sprites: Vec<SpriteRect>,
    /// The RGBA bytes of every sprite, in the same order.
    pub crops: Vec<Vec<u8>>,
}

/// The alpha channel of the sheet as a grid.
pub fn alpha_grid(sheet: &RgbaSheet) -> (g: AlphaGrid)
    requires
        sheet.wf(),
    ensures
        g.width == sheet.width,
        g.height == sheet.height,
        g.alpha@ == alpha_of(sheet.pixels@, sheet.width as int * sheet.height as int),
        g.wf(),
        forall|i: int|
            0 <= i < sheet.width as int * sheet.height as int ==> #[trigger] g.alpha@[i]
                == sheet.pixels@[4 * i + 3],
{
    let ghost count = sheet.width as int * sheet.height as int;
    let len = sheet.pixels.len();
    assert(4 * count == len);
    let n: usize = sheet.width as usize * sheet.height as usize;
    let mut alpha: Vec<u8> = Vec::new();
    let mut i: usize = 0;
    while i < n
        invariant
            sheet.wf(),
            n == count,
            count == sheet.width as int * sheet.height as int,
            4 * count <= usize::MAX,
            i <= n,
            alpha@ == alpha_of(sheet.pixels@, i as int),
        decreases n - i,
    {
        alpha.push(sheet.pixels[4 * i + 3]);
        assert(alpha@ =~= alpha_of(sheet.pixels@, i + 1));
        i += 1;
    }
    AlphaGrid { width: sheet.width, height: sheet.height, alpha }
}

/// Cuts the sheet: finds the sprites in its alpha channel, row after row, and
/// crops the pixels of each one.
pub fn cut_sprite_sheet(sheet: &RgbaSheet) -> (cut: SheetCut)
    requires
        sheet.wf(),
    ensures
        cut.grid.width == sheet.width,
        cut.grid.height == sheet.height,
        cut.grid.alpha@ == alpha_of(sheet.pixels@, sheet.width as int * sheet.height as int),
        forall|i: int|
            0 <= i < sheet.width as int * sheet.height as int ==> #[trigger] cut.grid.alpha@[i]
                == sheet.pixels@[4 * i + 3],
        cut.sprites@ == scan(&cut.grid, cut.grid.alpha@.len() as nat).1,
        cut.crops@.len() == cut.sprites@.len(),
        forall|i: int|
            0 <= i < cut.crops@.len() ==> #[trigger] cut.crops@[i]@ == crop_bytes(
                sheet.pixels@,
                sheet.width as int,
                cut.sprites@[i],
            ),
{
    let grid = alpha_grid(sheet);
    let sprites = find_sprites(&grid);
    let mut crops: Vec<Vec<u8>> = Vec::new();
    let mut i: usize = 0;
    while i < sprites.len()
        invariant
            sheet.wf(),
            grid.width == sheet.width,
            grid.height == sheet.height,
            forall|j: int| 0 <= j < sprites@.len() ==> within_image(&grid, #[trigger] sprites@[j]),
            i <= sprites.len(),
            crops@.len() == i,
            forall|j: int|
                0 <= j < i ==> #[trigger] crops@[j]@ == crop_bytes(
                    sheet.pixels@,
                    sheet.width as int,
                    sprites@[j],
                ),
        decreases sprites.len() - i,
    {
        let r = sprites[i];
        assert(within_image(&grid, sprites@[i as int]));
        let crop = crop_rgba(sheet.width, sheet.height, &sheet.pixels, r);
        crops.push(crop);
        i += 1;
    }
    SheetCut { grid, sprites, crops }
}

} // verus!
