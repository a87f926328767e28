//! Where glyphs go in the textures of a font atlas.
//!
//! Glyphs are put side by side in rows, from the first row of a texture
//! on. A glyph that has no room left in its row opens the next row, below
//! the tallest glyph of the row before; one for which the texture is too
//! low opens a new texture.

use vstd::prelude::*;

verus! {

/// The width of an atlas texture in pixels.
pub const ATLAS_WIDTH: i32 = 1024;

/// The height of an atlas texture in pixels.
pub const ATLAS_HEIGHT: i32 = 1024;

/// The number of textures that an atlas can have.
pub const MAX_ATLASES: usize = 4;

/// The place of one glyph: the texture that it is in, and its rectangle
/// there.
#[derive(Debug, Clone, Copy, PartialEq, Eq, Structural)]
pub struct Placement {
    pub atlas: usize,
    pub x: i32,
    pub y: i32,
    pub width: i32,
    pub height: i32,
}

#[derive(Debug, Clone, Copy, PartialEq, Eq, Structural)]
pub enum PackError {
    /// The glyph does not fit into an empty texture.
    TooLarge,
    /// The glyph would need one texture more than an atlas can have.
    Full,
}

/// Whether two placements share a pixel.
pub open spec fn overlap(a: Placement, b: Placement) -> bool {
    &&& a.atlas == b.atlas
    &&& a.x < b.x + b.width
    &&& b.x < a.x + a.width
    &&& a.y < b.y + b.height
    &&& b.y < a.y + a.height
}

/// Whether a glyph of this size fits into an empty texture.
pub open spec fn fits_texture(width: i32, height: i32) -> bool {
    0 <= width < ATLAS_WIDTH && 0 <= height < ATLAS_HEIGHT
}

/// Decides where each glyph of an atlas goes.
pub struct AtlasPacker {
    // the number of textures in use.
    atlases: usize,
    // the x and y offset into the current texture.
    x_offset: i32,
    y_offset: i32,
    // the largest height of the current row of glyphs.
    max_height: i32,
    placed: Ghost<Seq<Placement>>,
}

impl AtlasPacker {
    /// The placements made so far, in their order.
    pub closed spec fn placements(self) -> Seq<Placement> {
        self.placed@
    }

    /// The number of textures in use.
    pub closed spec fn spec_atlases(self) -> usize {
        self.atlases
    }

    /// Where the next glyph of the given size goes: behind the last glyph
    /// of the current row where the row has room for it, else at the start
    /// of the next row where the texture is high enough for it, else at the
    /// origin of a new texture.
    pub closed spec fn spec_next(self, width: i32, height: i32) -> Placement {
        let fresh = self.atlases == 0;
        let x = if fresh {
            0
        } else {
            self.x_offset
        };
        let y = if fresh {
            0
        } else {
            self.y_offset
        };
        let tallest = if fresh {
            0
        } else {
            self.max_height
        };
        let atlases = if fresh {
            1
        } else {
            self.atlases as int
        };
        let in_row = x + width < ATLAS_WIDTH;
        let row_x = if in_row {
            x as int
        } else {
            0
        };
        let row_y = if in_row {
            y as int
        } else {
            y + tallest
        };
        if row_y + height < ATLAS_HEIGHT {
            Placement { atlas: (atlases - 1) as usize, x: row_x as i32, y: row_y as i32, width, height }
        } else {
            Placement { atlas: atlases as usize, x: 0, y: 0, width, height }
        }
    }

    /// The placements lie within their textures, no two of them share a
    /// pixel, and those of the current texture lie in the rows above the
    /// current row or in the current row before the offset.
    pub closed spec fn wf(self) -> bool {
        &&& self.atlases <= MAX_ATLASES
        &&& 0 <= self.x_offset < ATLAS_WIDTH
        &&& 0 <= self.y_offset
        &&& 0 <= self.max_height
        &&& self.y_offset + self.max_height < ATLAS_HEIGHT
        &&& self.atlases == 0 ==> self.placed@.len() == 0
        &&& forall|i: int|
            0 <= i < self.placed@.len() ==> {
                let p = #[trigger] self.placed@[i];
                &&& p.atlas < self.atlases
                &&& fits_texture(p.width, p.height)
                &&& 0 <= p.x
                &&& p.x + p.width < ATLAS_WIDTH
                &&& 0 <= p.y
                &&& p.y + p.height < ATLAS_HEIGHT
                &&& p.atlas + 1 == self.atlases ==> {
                    ||| p.y + p.height <= self.y_offset
                    ||| (p.y == self.y_offset && p.x + p.width <= self.x_offset && p.height
                        <= self.max_height)
                }
            }
        &&& forall|i: int, j: int|
            0 <= i < j < self.placed@.len() ==> !overlap(
                #[trigger] self.placed@[i],
                #[trigger] self.placed@[j],
            )
    }

    /// A packer without textures or placements.
    pub fn new() -> (packer: Self)
        ensures
            packer.wf(),
            packer.spec_atlases() == 0,
            packer.placements() == Seq::<Placement>::empty(),
    {
        Self { atlases: 0, x_offset: 0, y_offset: 0, max_height: 0, placed: Ghost(Seq::empty()) }
    }

    /// The number of textures in use.
    pub fn atlases(&self) -> (atlases: usize)
        ensures
            atlases == self.spec_atlases(),
    {
        self.atlases
    }

    /// Places a glyph of the given size. The place lies within its texture
    /// and shares no pixel with any place given out before. Fails, and
    /// changes nothing, for a glyph that fits no texture and for one that
    /// would need a texture more than the atlas can have.
    pub fn place(&mut self, width: i32, height: i32) -> (placed: Result<Placement, PackError>)
        requires
            old(self).wf(),
        ensures
            final(self).wf(),
            match placed {
                Ok(place) => {
                    &&& fits_texture(width, height)
                    &&& place == old(self).spec_next(width, height)
                    &&& place.atlas < MAX_ATLASES
                    &&& place.width == width
                    &&& place.height == height
                    &&& 0 <= place.x
                    &&& place.x + width < ATLAS_WIDTH
                    &&& 0 <= place.y
                    &&& place.y + height < ATLAS_HEIGHT
                    &&& forall|i: int|
                        0 <= i < old(self).placements().len() ==> !overlap(
                            #[trigger] old(self).placements()[i],
                            place,
                        )
                    &&& final(self).placements() == old(self).placements().push(place)
                    &&& final(self).spec_atlases() == place.atlas + 1
                },
                Err(PackError::TooLarge) => {
                    &&& !fits_texture(width, height)
                    &&& final(self).placements() == old(self).placements()
                    &&& final(self).spec_atlases() == old(self).spec_atlases()
                },
                Err(PackError::Full) => {
                    &&& fits_texture(width, height)
                    &&& old(self).spec_next(width, height).atlas >= MAX_ATLASES
                    &&& final(self).placements() == old(self).placements()
                    &&& final(self).spec_atlases() == old(self).spec_atlases()
                },
            },
    {
        if width < 0 || width >= ATLAS_WIDTH || height < 0 || height >= ATLAS_HEIGHT {
            return Err(PackError::TooLarge);
        }
        let mut atlases = self.atlases;
        let mut x = self.x_offset;
        let mut y = self.y_offset;
        let mut tallest = self.max_height;
        if atlases == 0 {
            atlases = 1;
            x = 0;
            y = 0;
            tallest = 0;
        }
        // check if room on line
        if !(x + width < ATLAS_WIDTH) {
            // if not advance to next line
            x = 0;
            y = y + tallest;
            tallest = 0;
        }
        // check if the texture is high enough
        if !(y + height < ATLAS_HEIGHT) {
            if atlases == MAX_ATLASES {
                return Err(PackError::Full);
            }
            atlases = atlases + 1;
            x = 0;
            y = 0;
            tallest = 0;
        }
        let place = Placement { atlas: atlases - 1, x, y, width, height };
        proof {
            assert forall|i: int| 0 <= i < self.placed@.len() implies !overlap(
                #[trigger] self.placed@[i],
                place,
            ) by {
                let p = self.placed@[i];
                assert(p.atlas < self.atlases);
            }
        }
        self.atlases = atlases;
        self.x_offset = x + width;
        self.y_offset = y;
        self.max_height = if height > tallest { height } else { tallest };
        self.placed = Ghost(self.placed@.push(place));
        Ok(place)
    }
}

/// Row `row` of a bitmap whose rows are `width` bytes long.
pub open spec fn row_of(bitmap: Seq<u8>, width: int, row: int) -> Seq<u8> {
    bitmap.subrange(row * width, row * width + width)
}

/// The rows of a bitmap of `height` rows of `width` bytes in the opposite
/// order: the last row first.
pub fn flip_y(bitmap: &[u8], width: usize, height: usize) -> (flipped: Vec<u8>)
    requires
        width * height <= bitmap@.len(),
    ensures
        flipped@.len() == width * height,
        forall|row: int|
            0 <= row < height ==> #[trigger] row_of(flipped@, width as int, row) == row_of(
                bitmap@,
                width as int,
                height - 1 - row,
            ),
{
    let mut flipped: Vec<u8> = Vec::new();
    let size = bitmap.len();
    proof {
        lemma_rows(height as int, width as int, height as int);
        lemma_rows(0, width as int, height as int);
    }
    let mut source_end = width * height;
    let mut row: usize = 0;
    while row < height
        invariant
            row <= height,
            width * height <= bitmap@.len(),
            source_end == (height - row) * width,
            flipped@.len() == row * width,
            forall|r: int|
                0 <= r < row ==> #[trigger] row_of(flipped@, width as int, r) == row_of(
                    bitmap@,
                    width as int,
                    height - 1 - r,
                ),
        decreases height - row,
    {
        proof {
            lemma_rows(height - row, width as int, height as int);
            lemma_rows(height - row - 1, width as int, height as int);
            lemma_rows(row as int, width as int, height as int);
            lemma_rows(row + 1, width as int, height as int);
        }
        let source_start = source_end - width;
        let ghost before = flipped@;
        flipped.extend_from_slice(vstd::slice::slice_subrange(bitmap, source_start, source_end));
        proof {
            assert(row_of(flipped@, width as int, row as int) =~= row_of(
                bitmap@,
                width as int,
                height - 1 - row,
            ));
            assert forall|r: int| 0 <= r < row implies #[trigger] row_of(flipped@, width as int, r)
                == row_of(bitmap@, width as int, height - 1 - r) by {
                lemma_rows(r, width as int, row as int);
                lemma_rows(r + 1, width as int, row as int);
                assert(row_of(flipped@, width as int, r) =~= row_of(before, width as int, r));
            }
        }
        source_end = source_start;
        row += 1;
    }
    proof {
        lemma_rows(height as int, width as int, height as int);
    }
    flipped
}

/// The first `rows` rows of a bitmap of `height` rows end within it, and
/// one row more takes `width` bytes more.
proof fn lemma_rows(rows: int, width: int, height: int)
    requires
        0 <= rows <= height,
        0 <= width,
    ensures
        0 <= rows * width <= height * width,
        (rows + 1) * width == rows * width + width,
        height * width == width * height,
{
    assert(0 <= rows * width <= height * width) by (nonlinear_arith)
        requires
            0 <= rows <= height,
            0 <= width,
    ;
    assert((rows + 1) * width == rows * width + width) by (nonlinear_arith);
    assert(height * width == width * height) by (nonlinear_arith);
}

} // verus!
