//! The renderer: owns the pixel buffer, the texture atlas, the tile map and
//! the player, advances the player under collision, and composes each frame
//! from sky, wall columns and the minimap overlay.

use vstd::prelude::*;
use crate::atlas::TextureAtlas;
use crate::fixed::{cos_fp, cos_spec, fp_mul, fp_mul_spec, norm_deg, norm_deg_spec, sin_fp,
    sin_spec, FP_ONE};
use crate::image::{pix, ImageData, Pixel};
use crate::map::{canonical_tile, tile_spec, TileMap};
use crate::player::{collides, Player};

verus! {

/// Screen width in pixels.
pub const SCREEN_W: usize = 320;
/// Screen height in pixels.
pub const SCREEN_H: usize = 240;

/// Where the player moves to before the collision test: the position
/// displaced by `speed` along the heading `a`, or, when strafing,
/// perpendicular to it (the heading rotated a quarter turn, so the
/// direction `(-sin a, cos a)`).
pub open spec fn displaced(px: int, py: int, a: int, speed: int, sideways: bool) -> (int, int) {
    if sideways {
        (px - fp_mul_spec(speed, sin_spec(a)), py + fp_mul_spec(speed, cos_spec(a)))
    } else {
        (px + fp_mul_spec(speed, cos_spec(a)), py + fp_mul_spec(speed, sin_spec(a)))
    }
}

/// The game session: one pixel buffer, one texture atlas, one tile map and
/// one player, living for the whole session.
pub struct Game {
    pub textures: TextureAtlas,
    pub image_buffer: ImageData,
    pub player: Player,
    pub map: TileMap,
}

impl Game {
    /// The buffer has the fixed screen resolution, the map is the canonical
    /// level, and the atlas is one row of 64 x 64 textures wide enough for
    /// every wall variant the level uses.
    pub open spec fn wf(&self) -> bool {
        &&& self.image_buffer.wf()
        &&& self.image_buffer.width == SCREEN_W
        &&& self.image_buffer.height == SCREEN_H
        &&& self.map.wf()
        &&& (forall|ix: int, iy: int| 0 <= ix < 16 && 0 <= iy < 16
            ==> self.map.tile(ix, iy) == canonical_tile(ix, iy))
        &&& self.textures.wf()
        &&& self.textures.height == 64
        &&& self.textures.width >= 128
    }

    /// Builds the session: a 320 x 240 buffer filled white, the canonical
    /// map, the given texture atlas, and the player at the fixed spawn pose
    /// (7, 3) facing 30 degrees.
    pub fn new(textures: TextureAtlas) -> (r: Game)
        requires
            textures.wf(),
            textures.height == 64,
            textures.width >= 128,
        ensures
            r.wf(),
            r.textures == textures,
            r.player.x == 70000,
            r.player.y == 30000,
            r.player.angle == 300000,
            r.image_buffer.data@.len() == 307200,
            forall|i: int| 0 <= i < r.image_buffer.data@.len()
                ==> r.image_buffer.data@[i] == 255u8,
    {
        Game {
            textures,
            image_buffer: ImageData::new(SCREEN_W, SCREEN_H),
            player: Player { x: 70000, y: 30000, angle: 300000 },
            map: TileMap::canonical(),
        }
    }

    /// Advances the player: the heading turns by `angle` degrees (and is
    /// reduced to `[0, 360)`), then the position moves by `speed` along the
    /// new heading, or perpendicular to it when `sideways`; a move whose
    /// destination collides with a wall is rolled back entirely, so a
    /// colliding update changes only the heading.
    pub fn update_player(&mut self, speed: i64, angle: i64, sideways: bool)
        requires
            old(self).wf(),
            -100000000 <= speed <= 100000000,
            -3000000000 <= angle <= 3000000000,
            -900000000 <= old(self).player.x <= 900000000,
            -900000000 <= old(self).player.y <= 900000000,
            -1000000000 <= old(self).player.angle <= 1000000000,
        ensures
            final(self).wf(),
            final(self).textures == old(self).textures,
            final(self).map == old(self).map,
            final(self).image_buffer == old(self).image_buffer,
            final(self).player.angle
                == norm_deg_spec(old(self).player.angle + angle),
            ({
                let (nx, ny) = displaced(old(self).player.x as int, old(self).player.y as int,
                    final(self).player.angle as int, speed as int, sideways);
                if collides(old(self).map.tiles@, nx, ny) {
                    final(self).player.x == old(self).player.x
                        && final(self).player.y == old(self).player.y
                } else {
                    final(self).player.x == nx && final(self).player.y == ny
                }
            }),
    {
        let na: i64 = norm_deg(self.player.angle + angle);
        self.player.angle = na;
        proof {
            crate::fixed::lemma_trig_bounds(na as int);
            crate::fixed::lemma_fp_mul_unit_bound(speed as int, sin_spec(na as int), 100000000);
            crate::fixed::lemma_fp_mul_unit_bound(speed as int, cos_spec(na as int), 100000000);
        }
        let mx: i64 = if sideways {
            self.player.x - fp_mul(speed, sin_fp(na))
        } else {
            self.player.x + fp_mul(speed, cos_fp(na))
        };
        let my: i64 = if sideways {
            self.player.y + fp_mul(speed, cos_fp(na))
        } else {
            self.player.y + fp_mul(speed, sin_fp(na))
        };
        let candidate = Player { x: mx, y: my, angle: na };
        if !candidate.collision(&self.map) {
            self.player.x = mx;
            self.player.y = my;
        }
    }


    /// Casts one ray per screen column across the 70 degree field of view
    /// and draws each hit as a textured vertical slice whose height falls
    /// off with fisheye-corrected distance; columns with no hit, a zero
    /// corrected distance, or a slice that would overrun the bottom edge
    /// draw nothing, leaving the backdrop visible.
    pub fn render_view(&mut self)
        requires
            old(self).wf(),
            -900000000 <= old(self).player.x <= 900000000,
            -900000000 <= old(self).player.y <= 900000000,
            -3000000000 <= old(self).player.angle <= 3000000000,
        ensures
            final(self).wf(),
            final(self).textures == old(self).textures,
            final(self).map == old(self).map,
            final(self).player == old(self).player,
            final(self).image_buffer.width == old(self).image_buffer.width,
            final(self).image_buffer.height == old(self).image_buffer.height,
            final(self).image_buffer.data@.len() == old(self).image_buffer.data@.len(),
            forall|qx: int, qy: int| 0 <= qx < SCREEN_W && 0 <= qy < SCREEN_H
                ==> final(self).image_buffer.pixel_at(qx, qy)
                    == view_pix(old(self).map.tiles@, old(self).textures,
                        old(self).player.x as int, old(self).player.y as int,
                        old(self).player.angle as int,
                        old(self).image_buffer.pixel_at(qx, qy), qx, qy),
    {
        let ghost tiles = self.map.tiles@;
        let ghost atlas0 = self.textures;
        let ghost px = self.player.x as int;
        let ghost py = self.player.y as int;
        let ghost pa = self.player.angle as int;
        let ghost data0 = self.image_buffer.data@;
        let p: Player = self.player;
        let mut i: usize = 0;
        while i < SCREEN_W
            invariant
                self.wf(),
                self.textures == old(self).textures,
                self.map == old(self).map,
                self.player == old(self).player,
                self.image_buffer.width == old(self).image_buffer.width,
                self.image_buffer.height == old(self).image_buffer.height,
                self.image_buffer.data@.len() == data0.len(),
                tiles == self.map.tiles@,
                atlas0 == self.textures,
                px == self.player.x as int,
                py == self.player.y as int,
                pa == self.player.angle as int,
                p == self.player,
                -900000000 <= px <= 900000000,
                -900000000 <= py <= 900000000,
                -3000000000 <= pa <= 3000000000,
                data0 == old(self).image_buffer.data@,
                0 <= i <= SCREEN_W,
                forall|qx: int, qy: int| 0 <= qx < SCREEN_W && 0 <= qy < SCREEN_H
                    ==> pix(self.image_buffer.data@, SCREEN_W as int, qx, qy)
                        == (if qx < i as int {
                            view_pix(tiles, atlas0, px, py, pa,
                                pix(data0, SCREEN_W as int, qx, qy), qx, qy)
                        } else {
                            pix(data0, SCREEN_W as int, qx, qy)
                        }),
            decreases SCREEN_W - i,
        {
            let ghost prev = self.image_buffer.data@;
            render_column(&mut self.image_buffer, &self.map, &self.textures, p, i);
            proof {
                assert forall|qx: int, qy: int| 0 <= qx < SCREEN_W && 0 <= qy < SCREEN_H
                    implies pix(self.image_buffer.data@, SCREEN_W as int, qx, qy)
                        == (if qx < i as int + 1 {
                            view_pix(tiles, atlas0, px, py, pa,
                                pix(data0, SCREEN_W as int, qx, qy), qx, qy)
                        } else {
                            pix(data0, SCREEN_W as int, qx, qy)
                        }) by {
                    assert(self.image_buffer.pixel_at(qx, qy)
                        == pix(self.image_buffer.data@, SCREEN_W as int, qx, qy));
                    if qx == i as int {
                        assert(pix(prev, SCREEN_W as int, qx, qy)
                            == pix(data0, SCREEN_W as int, qx, qy));
                    }
                };
            }
            i = i + 1;
        }
    }


    /// Overlays the HUD: the 64 x 64 top-down minimap of the tile grid, the
    /// two boundary view rays at the field-of-view edges (-35 and +35
    /// degrees) as lines from the scaled player position to each scaled hit
    /// position, and the red player marker on top.
    #[verifier::rlimit(100)]
    pub fn draw_hud(&mut self)
        requires
            old(self).wf(),
            -900000000 <= old(self).player.x <= 900000000,
            -900000000 <= old(self).player.y <= 900000000,
            -3000000000 <= old(self).player.angle <= 3000000000,
        ensures
            final(self).wf(),
            final(self).textures == old(self).textures,
            final(self).map == old(self).map,
            final(self).player == old(self).player,
            final(self).image_buffer.width == old(self).image_buffer.width,
            final(self).image_buffer.height == old(self).image_buffer.height,
            final(self).image_buffer.data@.len() == old(self).image_buffer.data@.len(),
            forall|qx: int, qy: int| 0 <= qx < SCREEN_W && 0 <= qy < SCREEN_H
                ==> final(self).image_buffer.pixel_at(qx, qy)
                    == hud_pix(old(self).map.tiles@, old(self).player.x as int,
                        old(self).player.y as int, old(self).player.angle as int,
                        old(self).image_buffer.pixel_at(qx, qy), qx, qy),
    {
        let ghost tiles = self.map.tiles@;
        let ghost px = self.player.x as int;
        let ghost py = self.player.y as int;
        let ghost pa = self.player.angle as int;
        let ghost d0 = self.image_buffer.data@;
        let mut idx: usize = 0;
        while idx < 64
            invariant
                self.wf(),
                self.textures == old(self).textures,
                self.map == old(self).map,
                self.player == old(self).player,
                self.image_buffer.width == old(self).image_buffer.width,
                self.image_buffer.height == old(self).image_buffer.height,
                self.image_buffer.data@.len() == d0.len(),
                tiles == self.map.tiles@,
                d0 == old(self).image_buffer.data@,
                0 <= idx <= 64,
                forall|qx: int, qy: int| 0 <= qx < SCREEN_W && 0 <= qy < SCREEN_H
                    ==> pix(self.image_buffer.data@, SCREEN_W as int, qx, qy)
                        == (if qx < idx as int && 0 <= qy < 64 {
                            minimap_pix(tiles, pix(d0, SCREEN_W as int, qx, qy), qx, qy)
                        } else {
                            pix(d0, SCREEN_W as int, qx, qy)
                        }),
            decreases 64 - idx,
        {
            let mut ydx: usize = 0;
            while ydx < 64
                invariant
                    self.wf(),
                    self.textures == old(self).textures,
                    self.map == old(self).map,
                    self.player == old(self).player,
                    self.image_buffer.width == old(self).image_buffer.width,
                    self.image_buffer.height == old(self).image_buffer.height,
                    self.image_buffer.data@.len() == d0.len(),
                    tiles == self.map.tiles@,
                    d0 == old(self).image_buffer.data@,
                    0 <= idx < 64,
                    0 <= ydx <= 64,
                    forall|qx: int, qy: int| 0 <= qx < SCREEN_W && 0 <= qy < SCREEN_H
                        ==> pix(self.image_buffer.data@, SCREEN_W as int, qx, qy)
                            == (if (qx < idx as int && 0 <= qy < 64)
                                    || (qx == idx as int && 0 <= qy < ydx as int) {
                                minimap_pix(tiles, pix(d0, SCREEN_W as int, qx, qy), qx, qy)
                            } else {
                                pix(d0, SCREEN_W as int, qx, qy)
                            }),
                decreases 64 - ydx,
            {
                let t: u8 = self.map.tile_at(idx / 4, ydx / 4);
                let _ = if t != 0 {
                    self.image_buffer.set_pixel(idx, ydx,
                        &(Pixel { r: 0, g: 0, b: 0, a: 255 }))
                } else {
                    self.image_buffer.set_pixel(idx, ydx,
                        &(Pixel { r: 50, g: 50, b: 150, a: 255 }))
                };
                proof {
                    assert forall|qx: int, qy: int| 0 <= qx < SCREEN_W && 0 <= qy < SCREEN_H
                        implies pix(self.image_buffer.data@, SCREEN_W as int, qx, qy)
                            == (if (qx < idx as int && 0 <= qy < 64)
                                    || (qx == idx as int && 0 <= qy < ydx as int + 1) {
                                minimap_pix(tiles, pix(d0, SCREEN_W as int, qx, qy), qx, qy)
                            } else {
                                pix(d0, SCREEN_W as int, qx, qy)
                            }) by {
                        assert(self.image_buffer.pixel_at(qx, qy)
                            == pix(self.image_buffer.data@, SCREEN_W as int, qx, qy));
                    };
                }
                ydx = ydx + 1;
            }
            idx = idx + 1;
        }
        let ghost d1 = self.image_buffer.data@;
        proof {
            assert forall|qx: int, qy: int| 0 <= qx < SCREEN_W && 0 <= qy < SCREEN_H
                implies pix(d1, SCREEN_W as int, qx, qy)
                    == minimap_pix(tiles, pix(d0, SCREEN_W as int, qx, qy), qx, qy) by {};
        }
        let p: Player = self.player;
        let ex: usize = sat_scale4(p.x);
        let ey: usize = sat_scale4(p.y);
        if let Some(ray) = p.look_at(&self.map, Some(-350000)) {
            let fx: usize = sat_scale4(ray.x);
            let fy: usize = sat_scale4(ray.y);
            let _ = self.image_buffer.draw_line(ex, ey, fx, fy,
                &(Pixel { r: 0, g: 255, b: 0, a: 255 }));
        }
        let ghost d2 = self.image_buffer.data@;
        proof {
            assert forall|qx: int, qy: int| 0 <= qx < SCREEN_W && 0 <= qy < SCREEN_H
                implies pix(d2, SCREEN_W as int, qx, qy)
                    == (if hud_ray_covers(tiles, px, py, pa, -350000, qx, qy) {
                        (0u8, 255u8, 0u8, 255u8)
                    } else {
                        pix(d1, SCREEN_W as int, qx, qy)
                    }) by {
                assert(self.image_buffer.pixel_at(qx, qy)
                    == pix(self.image_buffer.data@, SCREEN_W as int, qx, qy));
            };
        }
        if let Some(ray) = p.look_at(&self.map, Some(350000)) {
            let fx: usize = sat_scale4(ray.x);
            let fy: usize = sat_scale4(ray.y);
            let _ = self.image_buffer.draw_line(ex, ey, fx, fy,
                &(Pixel { r: 0, g: 255, b: 255, a: 255 }));
        }
        let ghost d3 = self.image_buffer.data@;
        proof {
            assert forall|qx: int, qy: int| 0 <= qx < SCREEN_W && 0 <= qy < SCREEN_H
                implies pix(d3, SCREEN_W as int, qx, qy)
                    == (if hud_ray_covers(tiles, px, py, pa, 350000, qx, qy) {
                        (0u8, 255u8, 255u8, 255u8)
                    } else {
                        pix(d2, SCREEN_W as int, qx, qy)
                    }) by {
                assert(self.image_buffer.pixel_at(qx, qy)
                    == pix(self.image_buffer.data@, SCREEN_W as int, qx, qy));
            };
        }
        let _ = self.image_buffer.set_pixel(ex, ey, &(Pixel { r: 255, g: 0, b: 0, a: 255 }));
        proof {
            assert forall|qx: int, qy: int| 0 <= qx < SCREEN_W && 0 <= qy < SCREEN_H
                implies pix(self.image_buffer.data@, SCREEN_W as int, qx, qy)
                    == hud_pix(tiles, px, py, pa, pix(d0, SCREEN_W as int, qx, qy), qx, qy)
                by {
                assert(self.image_buffer.pixel_at(qx, qy)
                    == pix(self.image_buffer.data@, SCREEN_W as int, qx, qy));
                if hud_dot_at(px, py, qx, qy) {
                } else if qx == ex as int && qy == ey as int {
                } else {
                    assert(pix(self.image_buffer.data@, SCREEN_W as int, qx, qy)
                        == pix(d3, SCREEN_W as int, qx, qy));
                }
            };
        }
    }


    /// Recomputes the frame: clears the buffer, fills sky and ground, casts
    /// the wall view, overlays the HUD, and returns the raw row-major RGBA
    /// bytes. The frame is a pure function of the map, the atlas and the
    /// player pose, so repeated calls with no intervening update return
    /// byte-identical contents.
    pub fn render(&mut self) -> (r: &Vec<u8>)
        requires
            old(self).wf(),
            -900000000 <= old(self).player.x <= 900000000,
            -900000000 <= old(self).player.y <= 900000000,
            -3000000000 <= old(self).player.angle <= 3000000000,
        ensures
            final(self).wf(),
            final(self).textures == old(self).textures,
            final(self).map == old(self).map,
            final(self).player == old(self).player,
            final(self).image_buffer.data@.len() == 307200,
            forall|qx: int, qy: int| 0 <= qx < SCREEN_W && 0 <= qy < SCREEN_H
                ==> final(self).image_buffer.pixel_at(qx, qy)
                    == frame_pix(old(self).map.tiles@, old(self).textures,
                        old(self).player.x as int, old(self).player.y as int,
                        old(self).player.angle as int, qx, qy),
            r@ == final(self).image_buffer.data@,
    {
        let ghost tiles = self.map.tiles@;
        let ghost atlas0 = self.textures;
        let ghost px = self.player.x as int;
        let ghost py = self.player.y as int;
        let ghost pa = self.player.angle as int;
        self.image_buffer.clear();
        self.render_sky();
        let ghost bsky = self.image_buffer;
        self.render_view();
        let ghost bview = self.image_buffer;
        self.draw_hud();
        proof {
            assert forall|qx: int, qy: int| 0 <= qx < SCREEN_W && 0 <= qy < SCREEN_H
                implies self.image_buffer.pixel_at(qx, qy)
                    == frame_pix(tiles, atlas0, px, py, pa, qx, qy) by {
                assert(bsky.pixel_at(qx, qy) == sky_pix(qy));
                assert(bview.pixel_at(qx, qy)
                    == view_pix(tiles, atlas0, px, py, pa, sky_pix(qy), qx, qy));
            };
        }
        &self.image_buffer.data
    }

    /// Fills the top half of the buffer with the sky color and the bottom
    /// half with the ground color; the horizon splits the buffer at half its
    /// height.
    pub fn render_sky(&mut self)
        requires
            old(self).wf(),
        ensures
            final(self).wf(),
            final(self).textures == old(self).textures,
            final(self).map == old(self).map,
            final(self).player == old(self).player,
            final(self).image_buffer.width == old(self).image_buffer.width,
            final(self).image_buffer.height == old(self).image_buffer.height,
            final(self).image_buffer.data@.len() == old(self).image_buffer.data@.len(),
            forall|qx: int, qy: int| 0 <= qx < SCREEN_W && 0 <= qy < SCREEN_H
                ==> final(self).image_buffer.pixel_at(qx, qy) == sky_pix(qy),
    {
        let mut x: usize = 0;
        while x < SCREEN_W
            invariant
                self.wf(),
                self.textures == old(self).textures,
                self.map == old(self).map,
                self.player == old(self).player,
                self.image_buffer.width == old(self).image_buffer.width,
                self.image_buffer.height == old(self).image_buffer.height,
                self.image_buffer.data@.len() == old(self).image_buffer.data@.len(),
                0 <= x <= SCREEN_W,
                forall|qx: int, qy: int| 0 <= qx < x as int && 0 <= qy < SCREEN_H
                    ==> self.image_buffer.pixel_at(qx, qy) == sky_pix(qy),
            decreases SCREEN_W - x,
        {
            let mut y: usize = 0;
            while y < SCREEN_H
                invariant
                    self.wf(),
                    self.textures == old(self).textures,
                    self.map == old(self).map,
                    self.player == old(self).player,
                    self.image_buffer.width == old(self).image_buffer.width,
                    self.image_buffer.height == old(self).image_buffer.height,
                    self.image_buffer.data@.len() == old(self).image_buffer.data@.len(),
                    0 <= x < SCREEN_W,
                    0 <= y <= SCREEN_H,
                    forall|qx: int, qy: int| 0 <= qx < x as int && 0 <= qy < SCREEN_H
                        ==> self.image_buffer.pixel_at(qx, qy) == sky_pix(qy),
                    forall|qy: int| 0 <= qy < y as int
                        ==> self.image_buffer.pixel_at(x as int, qy) == sky_pix(qy),
                decreases SCREEN_H - y,
            {
                let _ = if y < SCREEN_H / 2 {
                    self.image_buffer.set_pixel(x, y, &(Pixel { r: 50, g: 50, b: 180, a: 255 }))
                } else {
                    self.image_buffer.set_pixel(x, y, &(Pixel { r: 50, g: 50, b: 40, a: 255 }))
                };
                y = y + 1;
            }
            x = x + 1;
        }
    }
}

/// The backdrop color of screen row `qy`: sky blue above the horizon, dark
/// ground below.
pub open spec fn sky_pix(qy: int) -> (u8, u8, u8, u8) {
    if qy < (SCREEN_H as int) / 2 {
        (50u8, 50u8, 180u8, 255u8)
    } else {
        (50u8, 50u8, 40u8, 255u8)
    }
}

/// The magnitude of an integer.
pub open spec fn iabs(v: int) -> int {
    if v >= 0 {
        v
    } else {
        -v
    }
}

/// Angular offset (fixed-point degrees) of screen column `i`: the 70 degree
/// field of view spans the screen, centered on the heading.
pub open spec fn view_offset(i: int) -> int {
    -350000 + (i * 700000) / (SCREEN_W as int)
}

/// The ray march result for screen column `i`.
pub open spec fn col_hit(tiles: Seq<u8>, px: int, py: int, pa: int, i: int) -> Option<int> {
    crate::player::march_hit(tiles, px, py, cos_spec(pa + view_offset(i)),
        sin_spec(pa + view_offset(i)), 0)
}

/// Fisheye-corrected denominator of column `i`'s wall height: the marched
/// distance times the cosine of the column's angular offset.
pub open spec fn col_denom(tiles: Seq<u8>, px: int, py: int, pa: int, i: int) -> int {
    fp_mul_spec(1000 * col_hit(tiles, px, py, pa, i)->Some_0, cos_spec(view_offset(i)))
}

/// On-screen wall height of column `i` in fixed-point pixels:
/// `WALL_HEIGHT / (distance * cos offset)` with `WALL_HEIGHT` 150.
pub open spec fn col_height(tiles: Seq<u8>, px: int, py: int, pa: int, i: int) -> int {
    15000000000int / col_denom(tiles, px, py, pa, i)
}

/// Top pixel row of column `i`'s wall slice (vertical center minus half the
/// height, saturating at the top edge).
pub open spec fn col_y0(tiles: Seq<u8>, px: int, py: int, pa: int, i: int) -> int {
    let y0f = 1200000 - col_height(tiles, px, py, pa, i) / 2;
    if y0f < 0 {
        0
    } else {
        y0f / (FP_ONE as int)
    }
}

/// Bottom pixel row of column `i`'s wall slice (vertical center plus half
/// the height).
pub open spec fn col_y1(tiles: Seq<u8>, px: int, py: int, pa: int, i: int) -> int {
    (1200000 + col_height(tiles, px, py, pa, i) / 2) / (FP_ONE as int)
}

/// Fractional offset of a hit coordinate from the nearest tile center, in
/// fixed-point `[-0.5, 0.5)`.
pub open spec fn frac_off(hc: int) -> int {
    hc - (FP_ONE as int) * ((hc + 5000) / (FP_ONE as int))
}

/// The fractional hit coordinate that selects column `i`'s texture column:
/// whichever axis deviates more from its tile center, picking the wall face
/// actually struck.
pub open spec fn col_tex_vert(tiles: Seq<u8>, px: int, py: int, pa: int, i: int) -> int {
    let a = pa + view_offset(i);
    let k = col_hit(tiles, px, py, pa, i)->Some_0;
    let tx = frac_off(crate::player::ray_pos(px, cos_spec(a), k));
    let ty = frac_off(crate::player::ray_pos(py, sin_spec(a), k));
    if iabs(ty) <= iabs(tx) {
        tx
    } else {
        ty
    }
}

/// The tile identifier column `i`'s ray struck.
pub open spec fn col_wall_type(tiles: Seq<u8>, px: int, py: int, pa: int, i: int) -> u8 {
    let a = pa + view_offset(i);
    let k = col_hit(tiles, px, py, pa, i)->Some_0;
    tile_spec(tiles, crate::player::ray_pos(px, cos_spec(a), k) / (FP_ONE as int),
        crate::player::ray_pos(py, sin_spec(a), k) / (FP_ONE as int))
}

/// The atlas column column `i`'s wall slice samples.
pub open spec fn col_texcol(tiles: Seq<u8>, px: int, py: int, pa: int, i: int) -> int {
    tex_column_spec(col_tex_vert(tiles, px, py, pa, i),
        col_wall_type(tiles, px, py, pa, i) as int)
}

/// Whether column `i` draws a wall slice: its ray hit a wall, the corrected
/// distance is positive, and the slice's bottom row is on screen. Columns
/// that draw nothing leave sky and ground visible.
pub open spec fn col_drawn(tiles: Seq<u8>, px: int, py: int, pa: int, i: int) -> bool {
    &&& col_hit(tiles, px, py, pa, i) is Some
    &&& col_denom(tiles, px, py, pa, i) > 0
    &&& col_y1(tiles, px, py, pa, i) <= 239
}

/// The color of pixel `(qx, qy)` after the wall view is drawn over a buffer
/// whose previous color there was `prev`: the textured slice of column `qx`
/// where it covers the pixel, `prev` elsewhere.
pub open spec fn view_pix(tiles: Seq<u8>, atlas: TextureAtlas, px: int, py: int, pa: int,
    prev: (u8, u8, u8, u8), qx: int, qy: int) -> (u8, u8, u8, u8) {
    if col_drawn(tiles, px, py, pa, qx) {
        let y0 = col_y0(tiles, px, py, pa, qx);
        let y1 = col_y1(tiles, px, py, pa, qx);
        let tc = col_texcol(tiles, px, py, pa, qx);
        if crate::image::line_len2(qx, y0, qx, y1) == 0 {
            if qy == y0 {
                crate::image::tex_line_color(atlas, tc, 0, 1)
            } else {
                prev
            }
        } else {
            match crate::image::line_cover_index(qx, y0, qx, y1, qx, qy) {
                Some(j) => crate::image::tex_line_color(atlas, tc, j,
                    crate::image::line_steps(qx, y0, qx, y1)),
                None => prev,
            }
        }
    } else {
        prev
    }
}

/// A marching step of a vertical line stays on the line's column.
proof fn lemma_vertical_cover_only(bx: int, by: int, incy: int, k: int, qx: int, qy: int)
    requires
        crate::image::line_last_cover(bx, 0, by, incy, k, qx, qy) is Some,
        bx >= 0,
    ensures
        qx == bx / (FP_ONE as int),
    decreases k + 1,
{
    if k < 0 {
    } else if crate::image::march_px(bx, 0, k) == qx && crate::image::march_px(by, incy, k) == qy {
        assert((k + 1) * 0 == 0) by (nonlinear_arith);
        assert(crate::image::march_px(bx, 0, k) == bx / (FP_ONE as int));
    } else {
        lemma_vertical_cover_only(bx, by, incy, k - 1, qx, qy);
    }
}


/// Draws screen column `i`'s wall slice into `buf` (or nothing, when the
/// column's ray misses or its slice is off screen), per `view_pix`.
#[verifier::rlimit(100)]
fn render_column(buf: &mut ImageData, map: &TileMap, atlas: &TextureAtlas, p: Player, i: usize)
    requires
        old(buf).wf(),
        old(buf).width == SCREEN_W,
        old(buf).height == SCREEN_H,
        map.wf(),
        forall|ix: int, iy: int| 0 <= ix < 16 && 0 <= iy < 16
            ==> map.tile(ix, iy) == canonical_tile(ix, iy),
        atlas.wf(),
        atlas.height == 64,
        atlas.width >= 128,
        i < SCREEN_W,
        -900000000 <= p.x <= 900000000,
        -900000000 <= p.y <= 900000000,
        -3000000000 <= p.angle <= 3000000000,
    ensures
        final(buf).wf(),
        final(buf).width == old(buf).width,
        final(buf).height == old(buf).height,
        final(buf).data@.len() == old(buf).data@.len(),
        forall|qx: int, qy: int| 0 <= qx < SCREEN_W && 0 <= qy < SCREEN_H
            ==> final(buf).pixel_at(qx, qy)
                == (if qx == i as int {
                    view_pix(map.tiles@, *atlas, p.x as int, p.y as int, p.angle as int,
                        old(buf).pixel_at(qx, qy), qx, qy)
                } else {
                    old(buf).pixel_at(qx, qy)
                }),
{
    let ghost tiles = map.tiles@;
    let ghost px = p.x as int;
    let ghost py = p.y as int;
    let ghost pa = p.angle as int;
    let offset: i64 = -350000 + ((i as i64) * 700000) / 320;
    proof {
        assert(0 <= (i as int) * 700000 <= 223300000) by (nonlinear_arith)
            requires 0 <= i as int <= 319;
        vstd::arithmetic::div_mod::lemma_div_pos_is_pos((i as int) * 700000, 320);
        vstd::arithmetic::div_mod::lemma_div_is_ordered(
            (i as int) * 700000, 223300000, 320);
        assert(offset as int == view_offset(i as int));
    }
    let hit = p.look_at(map, Some(offset));
    let mut drew: bool = false;
    match hit {
        Some(ray) => {
            let cosoff: i64 = cos_fp(offset);
            let denom: i64 = fp_mul(ray.distance, cosoff);
            proof {
                crate::fixed::lemma_fp_mul_unit_bound(
                    ray.distance as int, cosoff as int, 200000);
                assert(denom as int == col_denom(tiles, px, py, pa, i as int));
            }
            if denom > 0 {
                let hfp: i64 = 15000000000 / denom;
                proof {
                    vstd::arithmetic::div_mod::lemma_div_pos_is_pos(
                        15000000000, denom as int);
                    vstd::arithmetic::div_mod::lemma_div_nonincreasing(
                        15000000000, denom as int);
                }
                let h2: i64 = hfp / 2;
                let y0f: i64 = 1200000 - h2;
                let y1f: i64 = 1200000 + h2;
                let y0: i64 = if y0f < 0 { 0 } else { y0f / 10000 };
                let y1: i64 = y1f / 10000;
                proof {
                    if y0f >= 0 {
                        vstd::arithmetic::div_mod::lemma_div_pos_is_pos(y0f as int, 10000);
                        vstd::arithmetic::div_mod::lemma_div_is_ordered(
                            y0f as int, 1200000, 10000);
                    }
                    vstd::arithmetic::div_mod::lemma_div_pos_is_pos(y1f as int, 10000);
                    assert(y0 as int == col_y0(tiles, px, py, pa, i as int));
                    assert(y1 as int == col_y1(tiles, px, py, pa, i as int));
                    assert(0 <= y0 <= 120);
                }
                if y1 <= 239 {
                    let tx: i64 = ray.x - FP_ONE * ((ray.x + 5000) / FP_ONE);
                    let ty: i64 = ray.y - FP_ONE * ((ray.y + 5000) / FP_ONE);
                    proof {
                        vstd::arithmetic::div_mod::lemma_fundamental_div_mod(
                            ray.x as int + 5000, FP_ONE as int);
                        vstd::arithmetic::div_mod::lemma_mod_bound(
                            ray.x as int + 5000, FP_ONE as int);
                        vstd::arithmetic::div_mod::lemma_fundamental_div_mod(
                            ray.y as int + 5000, FP_ONE as int);
                        vstd::arithmetic::div_mod::lemma_mod_bound(
                            ray.y as int + 5000, FP_ONE as int);
                        assert(tx as int == frac_off(ray.x as int));
                        assert(ty as int == frac_off(ray.y as int));
                        assert(-5000 <= tx < 5000);
                        assert(-5000 <= ty < 5000);
                    }
                    let tv: i64 = if (if ty >= 0 { ty } else { -ty })
                            <= (if tx >= 0 { tx } else { -tx }) {
                        tx
                    } else {
                        ty
                    };
                    proof {
                        assert(tv as int == col_tex_vert(tiles, px, py, pa, i as int));
                        assert(ray.wall_type == col_wall_type(tiles, px, py, pa, i as int));
                        let hix = ray.x as int / (FP_ONE as int);
                        let hiy = ray.y as int / (FP_ONE as int);
                        vstd::arithmetic::div_mod::lemma_div_pos_is_pos(
                            ray.x as int, FP_ONE as int);
                        vstd::arithmetic::div_mod::lemma_div_pos_is_pos(
                            ray.y as int, FP_ONE as int);
                        vstd::arithmetic::div_mod::lemma_div_is_ordered(
                            ray.x as int, 159999, FP_ONE as int);
                        vstd::arithmetic::div_mod::lemma_div_is_ordered(
                            ray.y as int, 159999, FP_ONE as int);
                        assert(map.tile(hix, hiy) == canonical_tile(hix, hiy));
                        assert(canonical_tile(hix, hiy) <= 2);
                        assert(ray.wall_type as int <= 2);
                    }
                    let tc: usize = texture_column(tv, ray.wall_type);
                    proof {
                        assert(tc as int == col_texcol(tiles, px, py, pa, i as int));
                        assert(tc < 128);
                    }
                    let _ = buf.draw_line_texture(
                        i, y0 as usize, i, y1 as usize, atlas, tc);
                    drew = true;
                    proof {
                        assert(col_drawn(tiles, px, py, pa, i as int));
                        let ghost gy0 = col_y0(tiles, px, py, pa, i as int);
                        let ghost gy1 = col_y1(tiles, px, py, pa, i as int);
                        let ghost gtc = col_texcol(tiles, px, py, pa, i as int);
                        assert forall|qx: int, qy: int|
                            0 <= qx < SCREEN_W && 0 <= qy < SCREEN_H
                            implies pix(buf.data@, SCREEN_W as int, qx, qy)
                                == (if crate::image::line_len2(i as int, gy0, i as int, gy1)
                                        == 0 {
                                    if qx == i as int && qy == gy0 {
                                        crate::image::tex_line_color(*atlas, gtc, 0, 1)
                                    } else {
                                        pix(old(buf).data@, SCREEN_W as int, qx, qy)
                                    }
                                } else {
                                    match crate::image::line_cover_index(i as int, gy0,
                                            i as int, gy1, qx, qy) {
                                        Some(j) => crate::image::tex_line_color(*atlas, gtc,
                                            j, crate::image::line_steps(i as int, gy0,
                                                i as int, gy1)),
                                        None => pix(old(buf).data@, SCREEN_W as int, qx, qy),
                                    }
                                }) by {
                            assert(buf.pixel_at(qx, qy)
                                == pix(buf.data@, SCREEN_W as int, qx, qy));
                            assert(old(buf).pixel_at(qx, qy)
                                == pix(old(buf).data@, SCREEN_W as int, qx, qy));
                        };
                        lemma_column_effect(tiles, *atlas, px, py, pa, i as int,
                            old(buf).data@, buf.data@);
                    }
                }
            }
        }
        None => {}
    }
    proof {
        if !drew {
            assert(!col_drawn(tiles, px, py, pa, i as int));
            assert forall|qx: int, qy: int| 0 <= qx < SCREEN_W && 0 <= qy < SCREEN_H
                implies buf.pixel_at(qx, qy)
                    == (if qx == i as int {
                        view_pix(tiles, *atlas, px, py, pa, old(buf).pixel_at(qx, qy),
                            qx, qy)
                    } else {
                        old(buf).pixel_at(qx, qy)
                    }) by {
                assert(buf.pixel_at(qx, qy) == pix(buf.data@, SCREEN_W as int, qx, qy));
                assert(old(buf).pixel_at(qx, qy)
                    == pix(old(buf).data@, SCREEN_W as int, qx, qy));
                assert(buf.pixel_at(qx, qy) == old(buf).pixel_at(qx, qy));
            };
        }
    }
}

/// After the slice of a drawn column `i` lands on `prev` (the buffer right
/// before the draw call), every pixel matches `view_pix` on column `i` and
/// is untouched elsewhere.
#[verifier::rlimit(100)]
proof fn lemma_column_effect(tiles: Seq<u8>, atlas: TextureAtlas, px: int, py: int,
    pa: int, i: int, prev: Seq<u8>, cur: Seq<u8>)
    requires
        0 <= i < SCREEN_W as int,
        col_drawn(tiles, px, py, pa, i),
        ({
            let y0 = col_y0(tiles, px, py, pa, i);
            let y1 = col_y1(tiles, px, py, pa, i);
            let tc = col_texcol(tiles, px, py, pa, i);
            forall|qx: int, qy: int| 0 <= qx < SCREEN_W && 0 <= qy < SCREEN_H
                ==> pix(cur, SCREEN_W as int, qx, qy)
                    == (if crate::image::line_len2(i, y0, i, y1) == 0 {
                        if qx == i && qy == y0 {
                            crate::image::tex_line_color(atlas, tc, 0, 1)
                        } else {
                            pix(prev, SCREEN_W as int, qx, qy)
                        }
                    } else {
                        match crate::image::line_cover_index(i, y0, i, y1, qx, qy) {
                            Some(j) => crate::image::tex_line_color(atlas, tc, j,
                                crate::image::line_steps(i, y0, i, y1)),
                            None => pix(prev, SCREEN_W as int, qx, qy),
                        }
                    })
        }),
    ensures
        forall|qx: int, qy: int| 0 <= qx < SCREEN_W && 0 <= qy < SCREEN_H
            ==> pix(cur, SCREEN_W as int, qx, qy)
                == (if qx == i {
                    view_pix(tiles, atlas, px, py, pa, pix(prev, SCREEN_W as int, qx, qy),
                        qx, qy)
                } else {
                    pix(prev, SCREEN_W as int, qx, qy)
                }),
{
    let y0 = col_y0(tiles, px, py, pa, i);
    let y1 = col_y1(tiles, px, py, pa, i);
    let tc = col_texcol(tiles, px, py, pa, i);
    assert forall|qx: int, qy: int| 0 <= qx < SCREEN_W && 0 <= qy < SCREEN_H
        implies pix(cur, SCREEN_W as int, qx, qy)
            == (if qx == i {
                view_pix(tiles, atlas, px, py, pa, pix(prev, SCREEN_W as int, qx, qy),
                    qx, qy)
            } else {
                pix(prev, SCREEN_W as int, qx, qy)
            }) by {
        if crate::image::line_len2(i, y0, i, y1) != 0 {
            match crate::image::line_cover_index(i, y0, i, y1, qx, qy) {
                Some(j) => {
                    let (sx, sy, bx, by) = crate::image::line_order(i, y0, i, y1);
                    let l = crate::image::line_len_fp(i, y0, i, y1);
                    assert(sx == i && bx == i);
                    assert(crate::image::line_len2(i, y0, i, y1) >= 1) by (nonlinear_arith)
                        requires crate::image::line_len2(i, y0, i, y1)
                            == (y1 - y0) * (y1 - y0),
                            crate::image::line_len2(i, y0, i, y1) != 0;
                    assert(crate::image::line_len2(i, y0, i, y1) * 100000000 >= 100000000)
                        by (nonlinear_arith)
                        requires crate::image::line_len2(i, y0, i, y1) >= 1;
                    crate::fixed::lemma_isqrt_lower(
                        crate::image::line_len2(i, y0, i, y1) * 100000000, 10000);
                    assert(l >= 10000);
                    assert(crate::image::line_inc(bx - sx, l) == 0) by {
                        vstd::arithmetic::div_mod::lemma_div_pos_is_pos(0, 2 * l);
                        vstd::arithmetic::div_mod::lemma_div_nonincreasing(0, 2 * l);
                    };
                    lemma_vertical_cover_only(sx * (FP_ONE as int),
                        sy * (FP_ONE as int), crate::image::line_inc(by - sy, l),
                        crate::image::line_steps(i, y0, i, y1), qx, qy);
                    vstd::arithmetic::div_mod::lemma_div_multiples_vanish_fancy(
                        i, 0, FP_ONE as int);
                    assert(i * (FP_ONE as int) == (FP_ONE as int) * i + 0)
                        by (nonlinear_arith);
                    assert(qx == i);
                },
                None => {},
            }
        }
    };
}


/// A fixed-point world coordinate scaled onto the minimap: truncated to a
/// tile (saturating below at zero) and multiplied by the 4-pixel block size.
pub open spec fn scale4(p: int) -> int {
    4 * (if p < 0 { 0int } else { p / (FP_ONE as int) })
}

/// The minimap overlay: inside the 64 x 64 top-left block, walls draw
/// black and floor draws dark blue over the existing pixel; elsewhere the
/// buffer is untouched.
pub open spec fn minimap_pix(tiles: Seq<u8>, prev: (u8, u8, u8, u8), qx: int, qy: int)
    -> (u8, u8, u8, u8) {
    if 0 <= qx < 64 && 0 <= qy < 64 {
        if tile_spec(tiles, qx / 4, qy / 4) != 0 {
            (0u8, 0u8, 0u8, 255u8)
        } else {
            (50u8, 50u8, 150u8, 255u8)
        }
    } else {
        prev
    }
}

/// Whether the minimap ray at heading offset `off` covers pixel
/// `(qx, qy)`: its march hit a wall and the scaled segment from the player
/// to the hit, with all four endpoints on screen, touches the pixel.
pub open spec fn hud_ray_covers(tiles: Seq<u8>, px: int, py: int, pa: int, off: int,
    qx: int, qy: int) -> bool {
    let a = pa + off;
    match crate::player::march_hit(tiles, px, py, cos_spec(a), sin_spec(a), 0) {
        Some(k) => {
            let ex = scale4(px);
            let ey = scale4(py);
            let fx = scale4(crate::player::ray_pos(px, cos_spec(a), k));
            let fy = scale4(crate::player::ray_pos(py, sin_spec(a), k));
            ex < SCREEN_W as int && fx < SCREEN_W as int
                && ey < SCREEN_H as int && fy < SCREEN_H as int
                && crate::image::line_covers(ex, ey, fx, fy, qx, qy)
        },
        None => false,
    }
}

/// Whether the player marker lands on pixel `(qx, qy)`.
pub open spec fn hud_dot_at(px: int, py: int, qx: int, qy: int) -> bool {
    scale4(px) < SCREEN_W as int && scale4(py) < SCREEN_H as int
        && qx == scale4(px) && qy == scale4(py)
}

/// The color of pixel `(qx, qy)` after the HUD is drawn over a buffer whose
/// previous color there was `prev`: the red player marker on top, then the
/// two boundary view rays (cyan at +35 degrees over green at -35), then the
/// minimap tiles, then the untouched buffer.
pub open spec fn hud_pix(tiles: Seq<u8>, px: int, py: int, pa: int,
    prev: (u8, u8, u8, u8), qx: int, qy: int) -> (u8, u8, u8, u8) {
    if hud_dot_at(px, py, qx, qy) {
        (255u8, 0u8, 0u8, 255u8)
    } else if hud_ray_covers(tiles, px, py, pa, 350000, qx, qy) {
        (0u8, 255u8, 255u8, 255u8)
    } else if hud_ray_covers(tiles, px, py, pa, -350000, qx, qy) {
        (0u8, 255u8, 0u8, 255u8)
    } else {
        minimap_pix(tiles, prev, qx, qy)
    }
}

/// Scales a fixed-point coordinate onto the minimap, per `scale4`.
fn sat_scale4(p: i64) -> (r: usize)
    requires
        -1000000000 <= p <= 1000000000,
    ensures
        r as int == scale4(p as int),
{
    if p < 0 {
        0
    } else {
        proof {
            vstd::arithmetic::div_mod::lemma_div_pos_is_pos(p as int, FP_ONE as int);
            vstd::arithmetic::div_mod::lemma_div_is_ordered(p as int, 1000000000,
                FP_ONE as int);
        }
        ((p / FP_ONE) as usize) * 4
    }
}


/// The color the full render pipeline leaves at pixel `(qx, qy)`: the HUD
/// over the wall view over the sky backdrop, a pure function of the map,
/// the atlas and the player pose.
pub open spec fn frame_pix(tiles: Seq<u8>, atlas: TextureAtlas, px: int, py: int, pa: int,
    qx: int, qy: int) -> (u8, u8, u8, u8) {
    hud_pix(tiles, px, py, pa,
        view_pix(tiles, atlas, px, py, pa, sky_pix(qy), qx, qy), qx, qy)
}

/// Rendering is idempotent: two frame buffers whose every pixel equals the
/// rendered frame of one and the same map, atlas and player pose are
/// byte-identical, so calling the renderer twice with no intervening player
/// update produces identical bytes.
pub proof fn lemma_render_idempotent(d1: Seq<u8>, d2: Seq<u8>, tiles: Seq<u8>,
    atlas: TextureAtlas, px: int, py: int, pa: int)
    requires
        d1.len() == 307200,
        d2.len() == 307200,
        forall|qx: int, qy: int| 0 <= qx < SCREEN_W && 0 <= qy < SCREEN_H
            ==> pix(d1, SCREEN_W as int, qx, qy)
                == frame_pix(tiles, atlas, px, py, pa, qx, qy),
        forall|qx: int, qy: int| 0 <= qx < SCREEN_W && 0 <= qy < SCREEN_H
            ==> pix(d2, SCREEN_W as int, qx, qy)
                == frame_pix(tiles, atlas, px, py, pa, qx, qy),
    ensures
        d1 == d2,
{
    crate::image::lemma_pix_ext(d1, d2, SCREEN_W as int, SCREEN_H as int);
}

/// Texture column within the atlas selected by the fractional hit offset
/// `tex_vert` (fixed-point, in `[-0.5, 0.5)`) on a wall of variant
/// `wall_type`: the offset is scaled to the texture width, truncated toward
/// zero, wrapped into `[0, 64)`, and shifted into the variant's block.
pub open spec fn tex_column_spec(tex_vert: int, wall_type: int) -> int {
    let t0 = if tex_vert >= 0 {
        (64 * tex_vert) / (FP_ONE as int)
    } else {
        -((-(64 * tex_vert)) / (FP_ONE as int))
    };
    let t1 = if t0 < 0 {
        t0 + 64
    } else {
        t0
    };
    t1 + (wall_type - 1) * 64
}

/// Computes the texture column for a hit, per `tex_column_spec`; the result
/// always stays inside the 64-column block of the struck wall's variant and
/// never indexes an adjacent variant's block.
pub fn texture_column(tex_vert: i64, wall_type: u8) -> (r: usize)
    requires
        -5000 <= tex_vert < 5000,
        1 <= wall_type,
    ensures
        r == tex_column_spec(tex_vert as int, wall_type as int),
        (wall_type - 1) * 64 <= r < (wall_type as int) * 64,
{
    let t0: i64 = if tex_vert >= 0 {
        (64 * tex_vert) / FP_ONE
    } else {
        -((-(64 * tex_vert)) / FP_ONE)
    };
    proof {
        if tex_vert >= 0 {
            vstd::arithmetic::div_mod::lemma_div_pos_is_pos(64 * (tex_vert as int), FP_ONE as int);
            vstd::arithmetic::div_mod::lemma_div_is_ordered(
                64 * (tex_vert as int), 319936, FP_ONE as int);
        } else {
            vstd::arithmetic::div_mod::lemma_div_pos_is_pos(
                -(64 * (tex_vert as int)), FP_ONE as int);
            vstd::arithmetic::div_mod::lemma_div_is_ordered(
                -(64 * (tex_vert as int)), 320000, FP_ONE as int);
        }
    }
    let t1: i64 = if t0 < 0 { t0 + 64 } else { t0 };
    proof {
        assert(0 <= t1 <= 63);
        assert((wall_type as int - 1) * 64 + t1 < (wall_type as int) * 64) by (nonlinear_arith)
            requires 0 <= t1 <= 63;
        assert(0 <= (wall_type as int - 1) * 64 <= 16256) by (nonlinear_arith)
            requires 1 <= wall_type as int <= 255;
    }
    (t1 as usize) + (wall_type as usize - 1) * 64
}

} // verus!
