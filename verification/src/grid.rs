//! Integer grid coordinates and the floor division that maps a world cell
//! to the chunk that contains it at a given level of detail.
use vstd::prelude::*;
use vstd::arithmetic::power2::{pow2, lemma_pow2_pos, lemma_pow2_unfold, lemma2_to64};
use vstd::arithmetic::div_mod::lemma_fundamental_div_mod_converse;
use vstd::arithmetic::div_mod::lemma_fundamental_div_mod;

verus! {

/// Edge length of a chunk, in voxels.
pub const CHUNK_SIZE: usize = 32;

/// Number of voxels in a chunk.
pub const CHUNK_VOLUME: usize = 32768;

/// A point of an integer lattice: a chunk coordinate, or the world cell
/// (one level-0 voxel) that holds the camera.
#[derive(Clone, Copy, Debug, PartialEq, Eq, Structural, Hash)]
pub struct GridPos {
    pub x: i32,
    pub y: i32,
    pub z: i32,
}

impl GridPos {
    pub fn new(x: i32, y: i32, z: i32) -> (p: GridPos)
        ensures
            p.x == x,
            p.y == y,
            p.z == z,
    {
        GridPos { x, y, z }
    }
}

/// Edge length, in world units (level-0 voxels), of a chunk at `level`:
/// a chunk holds `CHUNK_SIZE` voxels per axis and a voxel at level `l`
/// measures `2^l` units.
pub open spec fn chunk_world_size(level: nat) -> int {
    32 * (pow2(level) as int)
}

/// The coordinate of the chunk at `level` that contains world coordinate
/// `cell` (floor division, so negative coordinates round down).
pub open spec fn chunk_coord(cell: int, level: nat) -> int {
    cell / chunk_world_size(level)
}

pub(crate) proof fn lemma_pow2_at_least(e: nat, k: nat)
    requires
        k <= e,
    ensures
        pow2(k) <= pow2(e),
    decreases e,
{
    if e > k {
        lemma_pow2_at_least((e - 1) as nat, k);
        lemma_pow2_unfold(e);
        lemma_pow2_pos((e - 1) as nat);
    }
}

/// Each level doubles the voxel size: a chunk at `level` is twice as
/// wide as a chunk at `level - 1`.
pub proof fn law_chunk_world_size_doubles(level: nat)
    requires
        level > 0,
    ensures
        chunk_world_size(level) == 2 * chunk_world_size((level - 1) as nat),
        chunk_world_size((level - 1) as nat) >= 32,
{
    lemma_pow2_unfold(level);
    lemma_pow2_pos((level - 1) as nat);
}

/// Chunks are at least 32 units wide.
pub proof fn lemma_chunk_world_size_min(level: nat)
    ensures
        chunk_world_size(level) >= 32,
{
    lemma_pow2_pos(level);
}

/// The chunk coordinate at `level` of world coordinate `cell`; that is the
/// chunk whose span `[c * size, (c + 1) * size)` holds `cell`.
pub fn chunk_coord_of(cell: i32, level: u32) -> (c: i32)
    ensures
        c == chunk_coord(cell as int, level as nat),
        -67108864 <= c < 67108864,
{
    let ghost d = chunk_world_size(level as nat);
    proof {
        lemma_chunk_world_size_min(level as nat);
    }
    if level >= 26 {
        proof {
            lemma2_to64();
            lemma_pow2_at_least(level as nat, 26);
            assert(d >= 2147483648);
        }
        if cell >= 0 {
            proof {
                lemma_fundamental_div_mod_converse(cell as int, d, 0, cell as int);
            }
            0
        } else {
            proof {
                lemma_fundamental_div_mod_converse(cell as int, d, -1, cell + d);
            }
            -1
        }
    } else {
        let mut size: u64 = 32;
        let mut i: u32 = 0;
        proof {
            lemma2_to64();
        }
        while i < level
            invariant
                i <= level < 26,
                size == 32 * pow2(i as nat),
                size <= 32 * pow2(25),
                pow2(25) == 33554432,
            decreases level - i,
        {
            proof {
                lemma_pow2_unfold((i + 1) as nat);
                lemma_pow2_at_least(25, (i + 1) as nat);
            }
            size = size * 2;
            i = i + 1;
        }
        assert(size as int == d);
        if cell >= 0 {
            let q = (cell as u64) / size;
            proof {
                lemma_fundamental_div_mod(cell as int, size as int);
                assert(q * size <= cell) by (nonlinear_arith)
                    requires
                        q == (cell as int) / (size as int),
                        cell as int == size * ((cell as int) / (size as int)) + (cell as int) % (size as int),
                        (cell as int) % (size as int) >= 0,
                ;
                assert(q < 67108864) by (nonlinear_arith)
                    requires
                        q * size <= cell,
                        cell < 2147483648,
                        size >= 32,
                ;
            }
            q as i32
        } else {
            let n: u64 = (-(cell as i64) - 1) as u64;
            let q: u64 = n / size;
            proof {
                let r = (n as int) % (size as int);
                lemma_fundamental_div_mod(n as int, size as int);
                assert(n as int == (q as int) * (size as int) + r) by (nonlinear_arith)
                    requires
                        n as int == (size as int) * ((n as int) / (size as int)) + r,
                        q as int == (n as int) / (size as int),
                ;
                assert(cell as int == (-(q as int) - 1) * (size as int) + (size - r - 1))
                    by (nonlinear_arith)
                    requires
                        n as int == (q as int) * (size as int) + r,
                        n as int == -(cell as int) - 1,
                ;
                lemma_fundamental_div_mod_converse(cell as int, d, -(q as int) - 1, size - r - 1);
                assert(q < 67108864) by (nonlinear_arith)
                    requires
                        n as int == (q as int) * (size as int) + r,
                        r >= 0,
                        n < 2147483648,
                        size >= 32,
                ;
            }
            (-(q as i64) - 1) as i32
        }
    }
}

} // verus!
