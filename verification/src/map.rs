//! The tile map: a 16 x 16 grid of 8-bit tile identifiers. Identifier 0 is
//! open floor; any other value is a wall and selects a texture variant
//! (variant = identifier - 1).

use vstd::prelude::*;

verus! {

/// Grid width in tiles.
pub const MAP_W: usize = 16;
/// Grid height in tiles.
pub const MAP_H: usize = 16;

/// The tile identifier of the canonical compiled-in level at `(ix, iy)`:
/// a fully walled boundary (with texture variant 2 on two tiles of the top
/// edge), a long interior wall across row 11 with a doorway, and a short
/// pillar wall at column 12, rows 9 and 10.
pub open spec fn canonical_tile(ix: int, iy: int) -> u8 {
    if iy == 0 {
        if ix == 10 || ix == 11 {
            2
        } else {
            1
        }
    } else if iy == 15 || ix == 0 || ix == 15 {
        1
    } else if iy == 11 && (ix <= 8 || ix >= 13) {
        1
    } else if ix == 12 && (iy == 9 || iy == 10) {
        1
    } else {
        0
    }
}

/// The identifier stored for grid cell `(ix, iy)` in a row-major tile
/// sequence.
pub open spec fn tile_spec(tiles: Seq<u8>, ix: int, iy: int) -> u8 {
    tiles[iy * (MAP_W as int) + ix]
}

/// A fixed 16 x 16 grid of tile identifiers, row-major, immutable after
/// construction.
pub struct TileMap {
    pub tiles: Vec<u8>,
}

impl TileMap {
    /// The tile storage holds exactly one identifier per grid cell.
    pub open spec fn wf(&self) -> bool {
        self.tiles@.len() == (MAP_W as int) * (MAP_H as int)
    }

    /// The identifier at `(ix, iy)`.
    pub open spec fn tile(&self, ix: int, iy: int) -> u8 {
        tile_spec(self.tiles@, ix, iy)
    }

    /// Wraps a row-major grid of tile identifiers; rejects storage of the
    /// wrong size.
    pub fn new(tiles: Vec<u8>) -> (r: Option<TileMap>)
        ensures
            r is Some <==> tiles@.len() == (MAP_W as int) * (MAP_H as int),
            r is Some ==> r->Some_0.wf() && r->Some_0.tiles@ == tiles@,
    {
        if tiles.len() == MAP_W * MAP_H {
            Some(TileMap { tiles })
        } else {
            None
        }
    }

    /// Builds the canonical compiled-in level.
    pub fn canonical() -> (r: TileMap)
        ensures
            r.wf(),
            forall|ix: int, iy: int|
                0 <= ix < MAP_W && 0 <= iy < MAP_H ==> r.tile(ix, iy) == canonical_tile(ix, iy),
    {
        let mut tiles: Vec<u8> = Vec::new();
        let mut iy: usize = 0;
        while iy < MAP_H
            invariant
                0 <= iy <= MAP_H,
                tiles@.len() == iy * (MAP_W as int),
                forall|j: int| 0 <= j < tiles@.len()
                    ==> tiles@[j] == canonical_tile(j % (MAP_W as int), j / (MAP_W as int)),
            decreases MAP_H - iy,
        {
            let mut ix: usize = 0;
            while ix < MAP_W
                invariant
                    0 <= iy < MAP_H,
                    0 <= ix <= MAP_W,
                    tiles@.len() == iy * (MAP_W as int) + ix,
                    forall|j: int| 0 <= j < tiles@.len()
                        ==> tiles@[j] == canonical_tile(j % (MAP_W as int), j / (MAP_W as int)),
                decreases MAP_W - ix,
            {
                let t: u8 = if iy == 0 {
                    if ix == 10 || ix == 11 {
                        2
                    } else {
                        1
                    }
                } else if iy == 15 || ix == 0 || ix == 15 {
                    1
                } else if iy == 11 && (ix <= 8 || ix >= 13) {
                    1
                } else if ix == 12 && (iy == 9 || iy == 10) {
                    1
                } else {
                    0
                };
                proof {
                    let j = iy * (MAP_W as int) + ix;
                    vstd::arithmetic::div_mod::lemma_fundamental_div_mod_converse(
                        j, MAP_W as int, iy as int, ix as int);
                    assert(t == canonical_tile(ix as int, iy as int));
                }
                tiles.push(t);
                ix = ix + 1;
            }
            iy = iy + 1;
        }
        proof {
            assert forall|ix: int, iy2: int|
                0 <= ix < MAP_W && 0 <= iy2 < MAP_H
                implies tile_spec(tiles@, ix, iy2) == canonical_tile(ix, iy2) by {
                let j = iy2 * (MAP_W as int) + ix;
                vstd::arithmetic::div_mod::lemma_fundamental_div_mod_converse(
                    j, MAP_W as int, iy2, ix);
                assert(0 <= j < 256) by (nonlinear_arith)
                    requires 0 <= ix < 16, 0 <= iy2 < 16, j == iy2 * 16 + ix;
            }
        }
        TileMap { tiles }
    }

    /// Direct lookup of the identifier at `(ix, iy)`.
    pub fn tile_at(&self, ix: usize, iy: usize) -> (r: u8)
        requires
            self.wf(),
            ix < MAP_W,
            iy < MAP_H,
        ensures
            r == self.tile(ix as int, iy as int),
    {
        proof {
            assert(0 <= iy * (MAP_W as int) + ix < 256) by (nonlinear_arith)
                requires 0 <= ix < 16, 0 <= iy < 16;
        }
        self.tiles[iy * MAP_W + ix]
    }
}

} // verus!
