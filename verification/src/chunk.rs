//! Voxels, chunks of voxels, and terrain generation for a chunk from the
//! height of the terrain over each of its columns.
use vstd::prelude::*;
use vstd::arithmetic::power2::{pow2, lemma_pow2_pos, lemma_pow2_unfold, lemma2_to64, lemma2_to64_rest};
use crate::grid::{GridPos, CHUNK_SIZE, CHUNK_VOLUME, lemma_pow2_at_least};

verus! {

/// A single voxel: its material id, 0 being empty air.
#[derive(Clone, Copy, Debug, PartialEq, Eq, Structural)]
pub struct Voxel {
    pub id: u16,
}

impl Default for Voxel {
    fn default() -> (v: Self)
        ensures
            v.id == 0,
    {
        Voxel { id: 0 }
    }
}

/// Index of voxel `(x, y, z)` in a chunk's voxel array: x varies fastest,
/// then y, then z.
pub open spec fn voxel_index(x: int, y: int, z: int) -> int {
    x + y * 32 + z * 1024
}

/// Index of column `(x, z)` in a chunk's table of column heights.
pub open spec fn column_index(x: int, z: int) -> int {
    x + z * 32
}

/// The world height, in level-0 units, of voxel row `y` of a chunk at
/// chunk height `chunk_y` and level `level`: voxels at `level` measure
/// `2^level` units, chunks `32 * 2^level`.
pub open spec fn voxel_world_y(chunk_y: int, level: nat, y: int) -> int {
    (chunk_y * 32 + y) * pow2(level)
}

/// A cube of `CHUNK_SIZE`^3 voxels at a chunk coordinate of a level.
pub struct Chunk {
    pub position: GridPos,
    pub level: u32,
    pub voxels: Vec<Voxel>,
}

impl Chunk {
    /// The chunk holds exactly `CHUNK_VOLUME` voxels.
    pub open spec fn wf(&self) -> bool {
        self.voxels@.len() == CHUNK_VOLUME
    }

    /// The voxel at `(x, y, z)`.
    pub open spec fn voxel(&self, x: int, y: int, z: int) -> Voxel {
        self.voxels@[voxel_index(x, y, z)]
    }

    /// A chunk of air at `position` of `level`.
    pub fn new(position: GridPos, level: u32) -> (c: Chunk)
        ensures
            c.wf(),
            c.position == position,
            c.level == level,
            forall|i: int| 0 <= i < CHUNK_VOLUME ==> (#[trigger] c.voxels@[i]).id == 0,
    {
        let mut voxels: Vec<Voxel> = Vec::new();
        while voxels.len() < CHUNK_VOLUME
            invariant
                voxels@.len() <= CHUNK_VOLUME,
                forall|i: int| 0 <= i < voxels@.len() ==> (#[trigger] voxels@[i]).id == 0,
            decreases CHUNK_VOLUME - voxels.len(),
        {
            voxels.push(Voxel::default());
        }
        Chunk { position, level, voxels }
    }

    /// Index of voxel `(x, y, z)` in the voxel array.
    pub fn get_index(x: usize, y: usize, z: usize) -> (i: usize)
        requires
            voxel_index(x as int, y as int, z as int) <= usize::MAX,
        ensures
            i == voxel_index(x as int, y as int, z as int),
    {
        x + y * CHUNK_SIZE + z * CHUNK_SIZE * CHUNK_SIZE
    }
}

/// Inside a chunk, voxel indices and coordinates determine each other:
/// every coordinate triple in range has its own index below
/// `CHUNK_VOLUME`, from which the coordinates come back by division.
pub proof fn law_voxel_index_bijective(x: int, y: int, z: int)
    requires
        0 <= x < 32,
        0 <= y < 32,
        0 <= z < 32,
    ensures
        0 <= voxel_index(x, y, z) < CHUNK_VOLUME,
        voxel_index(x, y, z) % 32 == x,
        (voxel_index(x, y, z) / 32) % 32 == y,
        voxel_index(x, y, z) / 1024 == z,
{
    let i = voxel_index(x, y, z);
    vstd::arithmetic::div_mod::lemma_fundamental_div_mod_converse(i, 32, y + z * 32, x);
    vstd::arithmetic::div_mod::lemma_fundamental_div_mod_converse(y + z * 32, 32, z, y);
    vstd::arithmetic::div_mod::lemma_fundamental_div_mod_converse(i, 1024, z, x + y * 32);
}

/// Terrain sampling agrees across levels: row `y` of a chunk at height
/// `chunk_y` and `level` sits at the same world height as row `2 * y` of
/// the chunk at height `2 * chunk_y` one level finer.
pub proof fn law_world_height_across_levels(chunk_y: int, level: nat, y: int)
    requires
        level > 0,
    ensures
        voxel_world_y(chunk_y, level, y) == voxel_world_y(2 * chunk_y, (level - 1) as nat, 2 * y),
{
    lemma_pow2_unfold(level);
    let p = pow2((level - 1) as nat) as int;
    assert((chunk_y * 32 + y) * (2 * p) == ((2 * chunk_y) * 32 + 2 * y) * p) by (nonlinear_arith);
}

/// Whether voxel row `y` of the chunk at height `chunk_y` and `level`
/// lies below `threshold`, i.e. `voxel_world_y(chunk_y, level, y) < threshold`.
fn row_below(chunk_y: i32, level: u32, y: i64, scale: u128, threshold: i64) -> (b: bool)
    requires
        0 <= y < 32,
        level < 64 ==> scale == pow2(level as nat),
    ensures
        b == (voxel_world_y(chunk_y as int, level as nat, y as int) < threshold),
{
    let a: i64 = chunk_y as i64 * 32 + y;
    proof {
        lemma_pow2_pos(level as nat);
    }
    if level >= 64 {
        proof {
            lemma2_to64();
            lemma2_to64_rest();
            lemma_pow2_at_least(level as nat, 64);
            let p = pow2(level as nat) as int;
            assert(p >= 0x1_0000_0000_0000_0000);
            assert(voxel_world_y(chunk_y as int, level as nat, y as int) == a * p);
            if a > 0 {
                assert(a * p >= p) by (nonlinear_arith)
                    requires
                        a >= 1,
                        p > 0,
                ;
            } else if a < 0 {
                assert(a * p <= -p) by (nonlinear_arith)
                    requires
                        a <= -1,
                        p > 0,
                ;
            }
        }
        if a == 0 {
            assert(voxel_world_y(chunk_y as int, level as nat, y as int) == 0) by (nonlinear_arith)
                requires
                    voxel_world_y(chunk_y as int, level as nat, y as int) == (chunk_y as int * 32 + y) * pow2(level as nat),
                    chunk_y as int * 32 + y == 0,
            ;
            0 < threshold
        } else if a > 0 {
            assert(voxel_world_y(chunk_y as int, level as nat, y as int) >= 0x1_0000_0000_0000_0000);
            false
        } else {
            assert(voxel_world_y(chunk_y as int, level as nat, y as int) <= -0x1_0000_0000_0000_0000);
            true
        }
    } else {
        proof {
            lemma2_to64();
            lemma2_to64_rest();
            lemma_pow2_at_least(63, level as nat);
            assert(scale <= 0x8000_0000_0000_0000);
            assert((a as int) * (scale as int) < 0x8000_0000_0000_0000_0000_0000_0000) by (nonlinear_arith)
                requires
                    -0x20_0000_0000 < a < 0x20_0000_0000,
                    0 < scale <= 0x8000_0000_0000_0000,
            ;
            assert((a as int) * (scale as int) > -0x8000_0000_0000_0000_0000_0000_0000) by (nonlinear_arith)
                requires
                    -0x20_0000_0000 < a < 0x20_0000_0000,
                    0 < scale <= 0x8000_0000_0000_0000,
            ;
        }
        let prod: i128 = (a as i128) * (scale as i128);
        assert(prod == voxel_world_y(chunk_y as int, level as nat, y as int));
        prod < threshold as i128
    }
}

/// `2^level` for `level < 64`, and 0 above (where it is not needed).
fn voxel_scale(level: u32) -> (s: u128)
    ensures
        level < 64 ==> s == pow2(level as nat),
{
    if level >= 64 {
        return 0;
    }
    let mut s: u128 = 1;
    let mut i: u32 = 0;
    proof {
        lemma2_to64();
            lemma2_to64_rest();
    }
    while i < level
        invariant
            i <= level < 64,
            s == pow2(i as nat),
        decreases level - i,
    {
        proof {
            lemma_pow2_unfold((i + 1) as nat);
            lemma_pow2_at_least(63, i as nat);
            lemma2_to64();
            lemma2_to64_rest();
        }
        s = s * 2;
        i = i + 1;
    }
    s
}

/// The world column, in level-0 units, of column `(x, z)` of a chunk at
/// `position` of `level`: its x and z in voxels of that level, scaled by
/// the voxel size `2^level`.
pub open spec fn column_world(position: GridPos, level: nat, x: int, z: int) -> (int, int) {
    ((position.x * 32 + x) * pow2(level), (position.z * 32 + z) * pow2(level))
}

/// The columns of a chunk at `position`, in voxels of the chunk's level:
/// entry `column_index(x, z)` is `(32 * position.x + x, 32 * position.z + z)`,
/// whose product with the voxel size `2^level` is the world column
/// (`column_world`) at which the column's terrain height is sampled.
pub fn column_coords(position: GridPos) -> (cols: Vec<(i64, i64)>)
    ensures
        cols@.len() == 1024,
        forall|x: int, z: int|
            0 <= x < 32 && 0 <= z < 32 ==> (#[trigger] cols@[column_index(x, z)]).0 == position.x * 32 + x && cols@[column_index(x, z)].1 == position.z * 32 + z,
{
    let mut cols: Vec<(i64, i64)> = Vec::new();
    let mut z: usize = 0;
    while z < CHUNK_SIZE
        invariant
            z <= 32,
            cols@.len() == z * 32,
            forall|x: int, zz: int|
                0 <= x < 32 && 0 <= zz < z ==> (#[trigger] cols@[column_index(x, zz)]).0 == position.x * 32 + x && cols@[column_index(x, zz)].1 == position.z * 32 + zz,
        decreases 32 - z,
    {
        let mut x: usize = 0;
        while x < CHUNK_SIZE
            invariant
                z < 32,
                x <= 32,
                cols@.len() == z * 32 + x,
                forall|xx: int, zz: int|
                    0 <= xx < 32 && 0 <= zz < 32 && column_index(xx, zz) < z * 32 + x
                        ==> (#[trigger] cols@[column_index(xx, zz)]).0 == position.x * 32 + xx && cols@[column_index(xx, zz)].1 == position.z * 32 + zz,
            decreases 32 - x,
        {
            let ghost before = cols@;
            cols.push((position.x as i64 * 32 + x as i64, position.z as i64 * 32 + z as i64));
            proof {
                assert forall|xx: int, zz: int|
                    0 <= xx < 32 && 0 <= zz < 32 && column_index(xx, zz) < z * 32 + x + 1
                        implies (#[trigger] cols@[column_index(xx, zz)]).0 == position.x * 32 + xx && cols@[column_index(xx, zz)].1 == position.z * 32 + zz by {
                    if column_index(xx, zz) < before.len() {
                        assert(cols@[column_index(xx, zz)] == before[column_index(xx, zz)]);
                    } else {
                        assert(xx == x && zz == z);
                    }
                }
            }
            x = x + 1;
        }
        z = z + 1;
    }
    cols
}

/// Terrain shapes match across LOD rings: if every chunk's column heights
/// are one terrain height function `height` read at the column's world
/// column, then two voxels of chunks at any levels that start at the same
/// world point are both solid or both air (as `generate_terrain` fills
/// them).
pub proof fn law_terrain_agrees_across_levels(
    height: spec_fn((int, int)) -> int,
    pa: GridPos,
    la: nat,
    ha: Seq<i64>,
    pb: GridPos,
    lb: nat,
    hb: Seq<i64>,
    xa: int,
    ya: int,
    za: int,
    xb: int,
    yb: int,
    zb: int,
)
    requires
        ha.len() == 1024,
        hb.len() == 1024,
        forall|x: int, z: int|
            0 <= x < 32 && 0 <= z < 32 ==> #[trigger] ha[column_index(x, z)] == height(column_world(pa, la, x, z)),
        forall|x: int, z: int|
            0 <= x < 32 && 0 <= z < 32 ==> #[trigger] hb[column_index(x, z)] == height(column_world(pb, lb, x, z)),
        0 <= xa < 32 && 0 <= ya < 32 && 0 <= za < 32,
        0 <= xb < 32 && 0 <= yb < 32 && 0 <= zb < 32,
        (pa.x * 32 + xa) * pow2(la) == (pb.x * 32 + xb) * pow2(lb),
        (pa.y * 32 + ya) * pow2(la) == (pb.y * 32 + yb) * pow2(lb),
        (pa.z * 32 + za) * pow2(la) == (pb.z * 32 + zb) * pow2(lb),
    ensures
        (voxel_world_y(pa.y as int, la, ya) < ha[column_index(xa, za)]) == (voxel_world_y(pb.y as int, lb, yb)
            < hb[column_index(xb, zb)]),
{
    assert(column_world(pa, la, xa, za) == column_world(pb, lb, xb, zb));
    assert(ha[column_index(xa, za)] == hb[column_index(xb, zb)]);
}

/// Fills the chunk at `position` of `level` with terrain: voxel
/// `(x, y, z)` is solid (material 1) exactly when its world height lies
/// below `heights[column_index(x, z)]`, the terrain height over its column,
/// and air otherwise.
pub fn generate_terrain(position: GridPos, level: u32, heights: &Vec<i64>) -> (c: Chunk)
    requires
        heights@.len() == 1024,
    ensures
        c.wf(),
        c.position == position,
        c.level == level,
        forall|x: int, y: int, z: int|
            0 <= x < 32 && 0 <= y < 32 && 0 <= z < 32 ==> (#[trigger] c.voxel(x, y, z)).id == (if voxel_world_y(
                position.y as int,
                level as nat,
                y,
            ) < heights@[column_index(x, z)] {
                1u16
            } else {
                0u16
            }),
{
    let scale = voxel_scale(level);
    let mut voxels: Vec<Voxel> = Vec::new();
    let mut z: usize = 0;
    while z < CHUNK_SIZE
        invariant
            heights@.len() == 1024,
            z <= 32,
            level < 64 ==> scale == pow2(level as nat),
            voxels@.len() == z * 1024,
            forall|x: int, y: int, zz: int|
                0 <= x < 32 && 0 <= y < 32 && 0 <= zz < z ==> (#[trigger] voxels@[voxel_index(x, y, zz)]).id == (
                if voxel_world_y(position.y as int, level as nat, y) < heights@[column_index(x, zz)] {
                    1u16
                } else {
                    0u16
                }),
        decreases 32 - z,
    {
        let mut y: usize = 0;
        while y < CHUNK_SIZE
            invariant
                heights@.len() == 1024,
                z < 32,
                y <= 32,
                level < 64 ==> scale == pow2(level as nat),
                voxels@.len() == z * 1024 + y * 32,
                forall|x: int, yy: int, zz: int|
                    0 <= x < 32 && 0 <= yy < 32 && 0 <= zz < 32 && voxel_index(x, yy, zz) < z * 1024 + y * 32
                        ==> (#[trigger] voxels@[voxel_index(x, yy, zz)]).id == (if voxel_world_y(
                        position.y as int,
                        level as nat,
                        yy,
                    ) < heights@[column_index(x, zz)] {
                        1u16
                    } else {
                        0u16
                    }),
            decreases 32 - y,
        {
            let mut x: usize = 0;
            while x < CHUNK_SIZE
                invariant
                    heights@.len() == 1024,
                    z < 32,
                    y < 32,
                    x <= 32,
                    level < 64 ==> scale == pow2(level as nat),
                    voxels@.len() == z * 1024 + y * 32 + x,
                    forall|xx: int, yy: int, zz: int|
                        0 <= xx < 32 && 0 <= yy < 32 && 0 <= zz < 32 && voxel_index(xx, yy, zz) < z * 1024
                            + y * 32 + x ==> (#[trigger] voxels@[voxel_index(xx, yy, zz)]).id == (
                        if voxel_world_y(position.y as int, level as nat, yy) < heights@[column_index(
                            xx,
                            zz,
                        )] {
                            1u16
                        } else {
                            0u16
                        }),
                decreases 32 - x,
            {
                let threshold = heights[x + z * CHUNK_SIZE];
                let solid = row_below(position.y, level, y as i64, scale, threshold);
                let ghost before = voxels@;
                voxels.push(Voxel { id: if solid { 1 } else { 0 } });
                proof {
                    assert forall|xx: int, yy: int, zz: int|
                        0 <= xx < 32 && 0 <= yy < 32 && 0 <= zz < 32 && voxel_index(xx, yy, zz) < z * 1024
                            + y * 32 + x + 1 implies (#[trigger] voxels@[voxel_index(xx, yy, zz)]).id == (
                        if voxel_world_y(position.y as int, level as nat, yy) < heights@[column_index(
                            xx,
                            zz,
                        )] {
                            1u16
                        } else {
                            0u16
                        }) by {
                        if voxel_index(xx, yy, zz) < before.len() {
                            assert(voxels@[voxel_index(xx, yy, zz)] == before[voxel_index(xx, yy, zz)]);
                        } else {
                            assert(xx == x && yy == y && zz == z);
                        }
                    }
                }
                x = x + 1;
            }
            y = y + 1;
        }
        z = z + 1;
    }
    Chunk { position, level, voxels }
}

} // verus!
