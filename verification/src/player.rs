//! The player: a world position and heading, the ray-marching query against
//! a tile map, and the circular collision test that motion updates use.

use vstd::prelude::*;
use crate::fixed::{cos_fp, cos_spec, fp_mul, fp_mul_spec, sin_fp, sin_spec, FP_ONE};
use crate::map::{tile_spec, TileMap};

verus! {

/// One world-grid side in fixed-point (16 world units).
pub const GRID_FP: i64 = 160000;

/// The first wall intersection a ray march found: the exact fixed-point
/// world coordinates, the marched distance, and the tile identifier struck.
pub struct RayHit {
    pub x: i64,
    pub y: i64,
    pub distance: i64,
    pub wall_type: u8,
}

/// Fixed-point world coordinate reached along one axis after `k` marching
/// steps of a tenth of a unit in direction component `dir`.
pub open spec fn ray_pos(origin: int, dir: int, k: int) -> int {
    origin + fp_mul_spec(1000 * k, dir)
}

/// The point lies inside the 16 x 16 world grid.
pub open spec fn in_grid(x: int, y: int) -> bool {
    0 <= x < GRID_FP as int && 0 <= y < GRID_FP as int
}

/// Index of the first marching step at or after `k` (up to 200, i.e. 20
/// world units in tenth-unit steps) whose point lies in a wall tile; `None`
/// if the march runs out of range or leaves the grid first.
pub open spec fn march_hit(
    tiles: Seq<u8>, ox: int, oy: int, cosv: int, sinv: int, k: int,
) -> Option<int>
    decreases 201 - k,
{
    if k > 200 {
        None
    } else if !in_grid(ray_pos(ox, cosv, k), ray_pos(oy, sinv, k)) {
        None
    } else if tile_spec(tiles, ray_pos(ox, cosv, k) / (FP_ONE as int),
            ray_pos(oy, sinv, k) / (FP_ONE as int)) != 0 {
        Some(k)
    } else {
        march_hit(tiles, ox, oy, cosv, sinv, k + 1)
    }
}

/// A march that starts on a wall tile stops immediately.
pub proof fn lemma_march_hit_at_origin(tiles: Seq<u8>, ox: int, oy: int, cosv: int, sinv: int)
    requires
        in_grid(ox, oy),
        tile_spec(tiles, ox / (FP_ONE as int), oy / (FP_ONE as int)) != 0,
    ensures
        march_hit(tiles, ox, oy, cosv, sinv, 0) == Some(0int),
{
    assert(ray_pos(ox, cosv, 0) == ox);
    assert(ray_pos(oy, sinv, 0) == oy);
}

/// Marches a point from `(ox, oy)` along the heading `angle` (fixed-point
/// degrees) in tenth-unit steps, and returns the first wall intersection
/// within 20 world units, with its exact position, marched distance and
/// tile identifier. Returns `None` if no wall is struck in range or the
/// march leaves the grid.
pub fn cast_ray(map: &TileMap, ox: i64, oy: i64, angle: i64) -> (r: Option<RayHit>)
    requires
        map.wf(),
        -1000000000 <= ox <= 1000000000,
        -1000000000 <= oy <= 1000000000,
        -3900000000 <= angle <= 3900000000,
    ensures
        ({
            let m = march_hit(map.tiles@, ox as int, oy as int, cos_spec(angle as int),
                sin_spec(angle as int), 0);
            match r {
                None => m is None,
                Some(h) => {
                    &&& m is Some
                    &&& h.x == ray_pos(ox as int, cos_spec(angle as int), m->Some_0)
                    &&& h.y == ray_pos(oy as int, sin_spec(angle as int), m->Some_0)
                    &&& h.distance == 1000 * m->Some_0
                    &&& 0 <= h.distance <= 200000
                    &&& in_grid(h.x as int, h.y as int)
                    &&& h.wall_type == tile_spec(map.tiles@, h.x as int / (FP_ONE as int),
                        h.y as int / (FP_ONE as int))
                    &&& h.wall_type != 0
                },
            }
        }),
{
    let cosv: i64 = cos_fp(angle);
    let sinv: i64 = sin_fp(angle);
    let ghost tiles = map.tiles@;
    let ghost oxg = ox as int;
    let ghost oyg = oy as int;
    let mut k: i64 = 0;
    while k <= 200
        invariant
            map.wf(),
            map.tiles@ == tiles,
            -1000000000 <= ox <= 1000000000,
            -1000000000 <= oy <= 1000000000,
            oxg == ox as int,
            oyg == oy as int,
            -FP_ONE <= cosv <= FP_ONE,
            -FP_ONE <= sinv <= FP_ONE,
            cosv == cos_spec(angle as int),
            sinv == sin_spec(angle as int),
            0 <= k <= 201,
            march_hit(tiles, oxg, oyg, cosv as int, sinv as int, 0)
                == march_hit(tiles, oxg, oyg, cosv as int, sinv as int, k as int),
        decreases 201 - k,
    {
        let c: i64 = k * 1000;
        let px: i64 = ox + fp_mul(c, cosv);
        let py: i64 = oy + fp_mul(c, sinv);
        proof {
            crate::fixed::lemma_fp_mul_bound(c as int, cosv as int, 201000, FP_ONE as int);
            crate::fixed::lemma_fp_mul_bound(c as int, sinv as int, 201000, FP_ONE as int);
            assert(px as int == ray_pos(oxg, cosv as int, k as int));
            assert(py as int == ray_pos(oyg, sinv as int, k as int));
        }
        if px < 0 || px >= GRID_FP || py < 0 || py >= GRID_FP {
            proof {
                assert(march_hit(tiles, oxg, oyg, cosv as int, sinv as int, k as int) is None);
            }
            return None;
        }
        proof {
            vstd::arithmetic::div_mod::lemma_div_pos_is_pos(px as int, FP_ONE as int);
            vstd::arithmetic::div_mod::lemma_div_pos_is_pos(py as int, FP_ONE as int);
            vstd::arithmetic::div_mod::lemma_div_is_ordered(px as int, 159999, FP_ONE as int);
            vstd::arithmetic::div_mod::lemma_div_is_ordered(py as int, 159999, FP_ONE as int);
        }
        let ix: usize = (px / FP_ONE) as usize;
        let iy: usize = (py / FP_ONE) as usize;
        let t: u8 = map.tile_at(ix, iy);
        if t != 0 {
            proof {
                assert(march_hit(tiles, oxg, oyg, cosv as int, sinv as int, k as int)
                    == Some(k as int));
            }
            return Some(RayHit { x: px, y: py, distance: c, wall_type: t });
        }
        proof {
            assert(march_hit(tiles, oxg, oyg, cosv as int, sinv as int, k as int)
                == march_hit(tiles, oxg, oyg, cosv as int, sinv as int, k as int + 1));
        }
        k = k + 1;
    }
    None
}


/// Every boundary tile of the grid is a wall, so no march from inside can
/// step past the edge without striking one.
pub open spec fn enclosed(tiles: Seq<u8>) -> bool {
    forall|ix: int, iy: int|
        0 <= ix < 16 && 0 <= iy < 16 && (ix == 0 || ix == 15 || iy == 0 || iy == 15)
        ==> #[trigger] tile_spec(tiles, ix, iy) != 0
}

/// Inside an enclosed map, a point on an open tile lies at least one tile
/// from every grid edge.
proof fn lemma_open_tile_interior(tiles: Seq<u8>, x: int, y: int)
    requires
        enclosed(tiles),
        in_grid(x, y),
        tile_spec(tiles, x / (FP_ONE as int), y / (FP_ONE as int)) == 0,
    ensures
        10000 <= x < 150000,
        10000 <= y < 150000,
{
    let s = FP_ONE as int;
    vstd::arithmetic::div_mod::lemma_div_pos_is_pos(x, s);
    vstd::arithmetic::div_mod::lemma_div_pos_is_pos(y, s);
    vstd::arithmetic::div_mod::lemma_div_is_ordered(x, 159999, s);
    vstd::arithmetic::div_mod::lemma_div_is_ordered(y, 159999, s);
    vstd::arithmetic::div_mod::lemma_fundamental_div_mod(x, s);
    vstd::arithmetic::div_mod::lemma_mod_bound(x, s);
    vstd::arithmetic::div_mod::lemma_fundamental_div_mod(y, s);
    vstd::arithmetic::div_mod::lemma_mod_bound(y, s);
    assert(tile_spec(tiles, x / s, y / s) != 0 || (1 <= x / s <= 14 && 1 <= y / s <= 14));
    assert(s <= x < 15 * s && s <= y < 15 * s) by (nonlinear_arith)
        requires s == 10000, x == s * (x / s) + x % s, 0 <= x % s < s, 1 <= x / s <= 14,
            y == s * (y / s) + y % s, 0 <= y % s < s, 1 <= y / s <= 14;
}

/// A march that finds no hit from an open in-grid point stays on open
/// in-grid points all the way to its last step: each tenth-unit step from
/// an interior tile lands back inside the grid, where an unstruck tile
/// must be open.
proof fn lemma_march_none_reaches_end(tiles: Seq<u8>, ox: int, oy: int, cosv: int,
    sinv: int, k: int)
    requires
        enclosed(tiles),
        -10000 <= cosv <= 10000,
        -10000 <= sinv <= 10000,
        0 <= k <= 200,
        in_grid(ray_pos(ox, cosv, k), ray_pos(oy, sinv, k)),
        tile_spec(tiles, ray_pos(ox, cosv, k) / (FP_ONE as int),
            ray_pos(oy, sinv, k) / (FP_ONE as int)) == 0,
        march_hit(tiles, ox, oy, cosv, sinv, k) is None,
    ensures
        in_grid(ray_pos(ox, cosv, 200), ray_pos(oy, sinv, 200)),
        tile_spec(tiles, ray_pos(ox, cosv, 200) / (FP_ONE as int),
            ray_pos(oy, sinv, 200) / (FP_ONE as int)) == 0,
    decreases 200 - k,
{
    if k < 200 {
        lemma_open_tile_interior(tiles, ray_pos(ox, cosv, k), ray_pos(oy, sinv, k));
        crate::fixed::lemma_fp_mul_step(1000 * k, cosv);
        crate::fixed::lemma_fp_mul_step(1000 * k, sinv);
        assert(1000 * (k + 1) == 1000 * k + 1000);
        assert(in_grid(ray_pos(ox, cosv, k + 1), ray_pos(oy, sinv, k + 1)));
        assert(march_hit(tiles, ox, oy, cosv, sinv, k + 1) is None);
        assert(tile_spec(tiles, ray_pos(ox, cosv, k + 1) / (FP_ONE as int),
            ray_pos(oy, sinv, k + 1) / (FP_ONE as int)) == 0);
        lemma_march_none_reaches_end(tiles, ox, oy, cosv, sinv, k + 1);
    }
}

/// From any point inside an enclosed map, at any heading, the ray march
/// strikes a wall within its 20-unit range: it can neither leave the grid
/// (the boundary is walled) nor run out of range (20 units of marching
/// moves the point further than the open interior is wide). Together with
/// the contract of `cast_ray`, the query then returns a hit with a nonzero
/// tile identifier at a marched distance of at most 20 units.
pub proof fn lemma_enclosed_ray_hits(tiles: Seq<u8>, ox: int, oy: int, a: int)
    requires
        enclosed(tiles),
        in_grid(ox, oy),
    ensures
        march_hit(tiles, ox, oy, cos_spec(a), sin_spec(a), 0) is Some,
{
    let s = FP_ONE as int;
    let cosv = cos_spec(a);
    let sinv = sin_spec(a);
    crate::fixed::lemma_trig_bounds(a);
    assert(fp_mul_spec(0int, cosv) == 0);
    assert(fp_mul_spec(0int, sinv) == 0);
    assert(ray_pos(ox, cosv, 0) == ox);
    assert(ray_pos(oy, sinv, 0) == oy);
    if tile_spec(tiles, ox / s, oy / s) != 0 {
        lemma_march_hit_at_origin(tiles, ox, oy, cosv, sinv);
    } else if march_hit(tiles, ox, oy, cosv, sinv, 0) is None {
        lemma_march_none_reaches_end(tiles, ox, oy, cosv, sinv, 0);
        lemma_open_tile_interior(tiles, ox, oy);
        lemma_open_tile_interior(tiles, ray_pos(ox, cosv, 200), ray_pos(oy, sinv, 200));
        crate::fixed::lemma_heading_component_bound(a);
        if cosv >= 7058 || cosv <= -7058 {
            lemma_far_step(cosv);
            assert(false);
        } else {
            lemma_far_step(sinv);
            assert(false);
        }
    }
}

/// Marching 20 units along a direction component of magnitude at least
/// 7058 displaces the fixed-point coordinate by more than the 14 units of
/// open interior the grid can hold.
proof fn lemma_far_step(v: int)
    requires
        7058 <= v <= 10000 || -10000 <= v <= -7058,
    ensures
        fp_mul_spec(200000, v) >= 141160 || fp_mul_spec(200000, v) <= -141160,
{
    let s = FP_ONE as int;
    let p = 200000 * v;
    if v >= 7058 {
        assert(p >= 1411600000) by (nonlinear_arith)
            requires p == 200000 * v, v >= 7058;
        vstd::arithmetic::div_mod::lemma_div_is_ordered(1411600000, p, s);
        vstd::arithmetic::div_mod::lemma_fundamental_div_mod_converse(
            1411600000, 10000, 141160, 0);
    } else {
        assert(-p >= 1411600000) by (nonlinear_arith)
            requires p == 200000 * v, v <= -7058;
        vstd::arithmetic::div_mod::lemma_div_is_ordered(1411600000, -p, s);
        vstd::arithmetic::div_mod::lemma_fundamental_div_mod_converse(
            1411600000, 10000, 141160, 0);
    }
}


/// The canonical level is enclosed: every tile of its boundary ring is a
/// wall.
pub proof fn lemma_canonical_enclosed(tiles: Seq<u8>)
    requires
        forall|ix: int, iy: int| 0 <= ix < 16 && 0 <= iy < 16
            ==> #[trigger] tile_spec(tiles, ix, iy) == crate::map::canonical_tile(ix, iy),
    ensures
        enclosed(tiles),
{
    assert forall|ix: int, iy: int|
        0 <= ix < 16 && 0 <= iy < 16 && (ix == 0 || ix == 15 || iy == 0 || iy == 15)
        implies #[trigger] tile_spec(tiles, ix, iy) != 0 by {
        assert(tile_spec(tiles, ix, iy) == crate::map::canonical_tile(ix, iy));
    };
}

/// The clamp the collision window uses: an optional lower bound is applied
/// first and wins outright, then an optional upper bound.
pub open spec fn clamp_i32_spec(val: i32, lower: Option<i32>, upper: Option<i32>) -> i32 {
    if lower is Some && lower->Some_0 > val {
        lower->Some_0
    } else if upper is Some && upper->Some_0 < val {
        upper->Some_0
    } else {
        val
    }
}

/// Clamps `val` between the optional bounds, lower bound first.
fn clamp_i32(val: i32, lower: Option<i32>, upper: Option<i32>) -> (r: i32)
    ensures
        r == clamp_i32_spec(val, lower, upper),
{
    if let Some(l) = lower {
        if l > val {
            return l;
        }
    }
    if let Some(h) = upper {
        if h < val {
            return h;
        }
    }
    val
}

/// A fixed-point world coordinate truncated toward zero to a tile index,
/// the rounding a float-to-int cast performs.
pub open spec fn tile_coord(p: int) -> int {
    if p >= 0 {
        p / (FP_ONE as int)
    } else {
        -((-p) / (FP_ONE as int))
    }
}

/// Lower corner of the 4 x 4 collision window around tile index `c`,
/// clamped so the window stays inside the grid.
pub open spec fn window_base(c: int) -> int {
    clamp_i32_spec((c - 2) as i32, Some(0i32), Some(12i32)) as int
}

/// Squared fixed-point distance from the player at `(px, py)` to the
/// representative corner point of tile `(ix, iy)`: the corner starts at the
/// tile origin offset 0.2 units down, and moves half a unit toward the
/// player on each axis where the player is greater.
pub open spec fn corner_dist2(px: int, py: int, ix: int, iy: int) -> int {
    let bx0 = ix * (FP_ONE as int);
    let by0 = iy * (FP_ONE as int) + 2000;
    let bx = if bx0 < px { bx0 + 5000 } else { bx0 };
    let by = if by0 < py { by0 + 5000 } else { by0 };
    (bx - px) * (bx - px) + (by - py) * (by - py)
}

/// The player at `(px, py)` collides: some wall tile in the 4 x 4 window
/// around the player's tile has its representative corner strictly within
/// 1 world unit of the player.
pub open spec fn collides(tiles: Seq<u8>, px: int, py: int) -> bool {
    exists|ix: int, iy: int|
        window_base(tile_coord(px)) <= ix < window_base(tile_coord(px)) + 4
        && window_base(tile_coord(py)) <= iy < window_base(tile_coord(py)) + 4
        && #[trigger] tile_spec(tiles, ix, iy) != 0
        && #[trigger] corner_dist2(px, py, ix, iy) < 100000000
}

/// The player's position and heading, in fixed-point world units and
/// degrees.
#[derive(Clone, Copy)]
pub struct Player {
    pub x: i64,
    pub y: i64,
    pub angle: i64,
}

/// The heading a look query casts along: the player's heading plus the
/// optional offset.
pub open spec fn look_angle(angle: int, offset: Option<i64>) -> int {
    match offset {
        Some(o) => angle + o,
        None => angle,
    }
}

impl Player {
    /// Whether the player's position collides with a wall of `map`, per the
    /// corner rule of `collides`.
    pub fn collision(&self, map: &TileMap) -> (r: bool)
        requires
            map.wf(),
            -1000000000 <= self.x <= 1000000000,
            -1000000000 <= self.y <= 1000000000,
        ensures
            r == collides(map.tiles@, self.x as int, self.y as int),
    {
        let xi: i64 = if self.x >= 0 { self.x / FP_ONE } else { -((-self.x) / FP_ONE) };
        let yi: i64 = if self.y >= 0 { self.y / FP_ONE } else { -((-self.y) / FP_ONE) };
        proof {
            vstd::arithmetic::div_mod::lemma_div_pos_is_pos(
                if self.x >= 0 { self.x as int } else { -(self.x as int) }, FP_ONE as int);
            vstd::arithmetic::div_mod::lemma_div_pos_is_pos(
                if self.y >= 0 { self.y as int } else { -(self.y as int) }, FP_ONE as int);
            vstd::arithmetic::div_mod::lemma_div_is_ordered(
                if self.x >= 0 { self.x as int } else { -(self.x as int) },
                1000000000, FP_ONE as int);
            vstd::arithmetic::div_mod::lemma_div_is_ordered(
                if self.y >= 0 { self.y as int } else { -(self.y as int) },
                1000000000, FP_ONE as int);
            assert(xi as int == tile_coord(self.x as int));
            assert(yi as int == tile_coord(self.y as int));
        }
        let x_loc: i32 = clamp_i32(xi as i32 - 2, Some(0), Some(12));
        let y_loc: i32 = clamp_i32(yi as i32 - 2, Some(0), Some(12));
        proof {
            assert(x_loc as int == window_base(tile_coord(self.x as int)));
            assert(y_loc as int == window_base(tile_coord(self.y as int)));
        }
        let ghost wx = x_loc as int;
        let ghost wy = y_loc as int;
        let ghost px = self.x as int;
        let ghost py = self.y as int;
        let mut xdx: i32 = x_loc;
        while xdx < x_loc + 4
            invariant
                map.wf(),
                -1000000000 <= self.x <= 1000000000,
                -1000000000 <= self.y <= 1000000000,
                px == self.x as int,
                py == self.y as int,
                0 <= x_loc <= 12,
                0 <= y_loc <= 12,
                wx == x_loc as int,
                wy == y_loc as int,
                wx == window_base(tile_coord(px)),
                wy == window_base(tile_coord(py)),
                x_loc <= xdx <= x_loc + 4,
                forall|ix: int, iy: int|
                    wx <= ix < xdx as int && wy <= iy < wy + 4
                    ==> !(#[trigger] tile_spec(map.tiles@, ix, iy) != 0
                        && #[trigger] corner_dist2(px, py, ix, iy) < 100000000),
            decreases x_loc + 4 - xdx,
        {
            let mut ydx: i32 = y_loc;
            while ydx < y_loc + 4
                invariant
                    map.wf(),
                    -1000000000 <= self.x <= 1000000000,
                    -1000000000 <= self.y <= 1000000000,
                    px == self.x as int,
                    py == self.y as int,
                    0 <= x_loc <= 12,
                    0 <= y_loc <= 12,
                    wx == x_loc as int,
                    wy == y_loc as int,
                    wx == window_base(tile_coord(px)),
                    wy == window_base(tile_coord(py)),
                    x_loc <= xdx < x_loc + 4,
                    y_loc <= ydx <= y_loc + 4,
                    forall|ix: int, iy: int|
                        wx <= ix < xdx as int && wy <= iy < wy + 4
                        ==> !(#[trigger] tile_spec(map.tiles@, ix, iy) != 0
                            && #[trigger] corner_dist2(px, py, ix, iy) < 100000000),
                    forall|iy: int|
                        wy <= iy < ydx as int
                        ==> !(#[trigger] tile_spec(map.tiles@, xdx as int, iy) != 0
                            && corner_dist2(px, py, xdx as int, iy) < 100000000),
                decreases y_loc + 4 - ydx,
            {
                let t: u8 = map.tile_at(xdx as usize, ydx as usize);
                if t != 0 {
                    let bx0: i64 = xdx as i64 * FP_ONE;
                    let by0: i64 = ydx as i64 * FP_ONE + 2000;
                    let bx: i64 = if bx0 < self.x { bx0 + 5000 } else { bx0 };
                    let by: i64 = if by0 < self.y { by0 + 5000 } else { by0 };
                    let ddx: i64 = bx - self.x;
                    let ddy: i64 = by - self.y;
                    proof {
                        assert(ddx as int * (ddx as int) <= 2000000000000000000
                            && ddy as int * (ddy as int) <= 2000000000000000000
                            && ddx as int * (ddx as int) >= 0
                            && ddy as int * (ddy as int) >= 0) by (nonlinear_arith)
                            requires -1100000000 <= ddx as int <= 1100000000,
                                -1100000000 <= ddy as int <= 1100000000;
                    }
                    let d2: i64 = ddx * ddx + ddy * ddy;
                    if d2 < 100000000 {
                        proof {
                            assert(corner_dist2(px, py, xdx as int, ydx as int) == d2 as int);
                            assert(collides(map.tiles@, px, py));
                        }
                        return true;
                    }
                }
                ydx = ydx + 1;
            }
            xdx = xdx + 1;
        }
        proof {
            assert(!collides(map.tiles@, px, py));
        }
        false
    }

    /// Casts a ray from the player's position at the player's heading plus
    /// `offset` degrees, if given.
    pub fn look_at(&self, map: &TileMap, offset: Option<i64>) -> (r: Option<RayHit>)
        requires
            map.wf(),
            -1000000000 <= self.x <= 1000000000,
            -1000000000 <= self.y <= 1000000000,
            -3900000000 <= look_angle(self.angle as int, offset) <= 3900000000,
        ensures
            ({
                let a = look_angle(self.angle as int, offset);
                let m = march_hit(map.tiles@, self.x as int, self.y as int, cos_spec(a),
                    sin_spec(a), 0);
                match r {
                    None => m is None,
                    Some(h) => {
                        &&& m is Some
                        &&& h.x == ray_pos(self.x as int, cos_spec(a), m->Some_0)
                        &&& h.y == ray_pos(self.y as int, sin_spec(a), m->Some_0)
                        &&& h.distance == 1000 * m->Some_0
                        &&& 0 <= h.distance <= 200000
                        &&& in_grid(h.x as int, h.y as int)
                        &&& h.wall_type == tile_spec(map.tiles@, h.x as int / (FP_ONE as int),
                            h.y as int / (FP_ONE as int))
                        &&& h.wall_type != 0
                    },
                }
            }),
    {
        match offset {
            Some(off) => cast_ray(map, self.x, self.y, self.angle + off),
            None => cast_ray(map, self.x, self.y, self.angle),
        }
    }
}

} // verus!
