//! The geometry clipmap: concentric rings of chunks around the camera, one
//! ring per level of detail, where each level doubles the voxel size and a
//! coarser ring leaves out the chunks that the next finer ring already
//! covers ("hole carving").
use vstd::prelude::*;
use crate::grid::{GridPos, chunk_coord, chunk_coord_of, chunk_world_size, law_chunk_world_size_doubles, lemma_chunk_world_size_min};
use vstd::arithmetic::div_mod::{lemma_fundamental_div_mod, lemma_fundamental_div_mod_converse, lemma_hoist_over_denominator};

verus! {

/// Configuration for the geometry clipmap.
pub struct ClipmapConfig {
    /// Number of LOD rings.
    pub levels: u32,
    /// Width of each ring, in chunks.
    pub ring_size: i32,
}

impl Default for ClipmapConfig {
    fn default() -> (c: Self)
        ensures
            c.levels == 4,
            c.ring_size == 8,
    {
        ClipmapConfig { levels: 4, ring_size: 8 }
    }
}

/// Half the ring width, rounded toward zero (`ring_size / 2` on `i32`).
pub open spec fn half_ring(ring_size: int) -> int {
    if ring_size >= 0 {
        ring_size / 2
    } else {
        -((-ring_size) / 2)
    }
}

/// The most chunks a ring can hold: `2h` by 4 by `2h` for `h = half_ring`.
pub open spec fn ring_capacity(ring_size: int) -> int {
    let h = half_ring(ring_size);
    if h > 0 {
        16 * h * h
    } else {
        0
    }
}

/// `p` lies in the box of the ring at `level`: within `h` chunks of the
/// camera's chunk on x and z (`[c - h, c + h)`), and in the band
/// `[c - 2, c + 2)` on y.
pub open spec fn in_ring_box(camera: GridPos, h: int, level: nat, p: GridPos) -> bool {
    let cx = chunk_coord(camera.x as int, level);
    let cy = chunk_coord(camera.y as int, level);
    let cz = chunk_coord(camera.z as int, level);
    &&& cx - h <= p.x < cx + h
    &&& cy - 2 <= p.y < cy + 2
    &&& cz - h <= p.z < cz + h
}

/// On one axis, the open world span `(c * w, (c + 1) * w)` of chunk
/// coordinate `c` at `level` meets the span `[(pc - half) * pw,
/// (pc + half) * pw]` that the ring at `level - 1` occupies, for `pc` the
/// finer ring's centre chunk (the one that holds camera coordinate `cam`)
/// and `half` its half-extent on that axis.
pub open spec fn axis_meets_finer_ring(cam: int, half: int, level: nat, c: int) -> bool {
    let w = chunk_world_size(level);
    let pw = chunk_world_size((level - 1) as nat);
    let pc = chunk_coord(cam, (level - 1) as nat);
    &&& c * w < (pc + half) * pw
    &&& (c + 1) * w > (pc - half) * pw
}

/// Chunk `p` at `level > 0` overlaps the space that the finer ring at
/// `level - 1` fills: `h` chunks either side of its centre on x and z, and
/// its band of 2 chunks either side on y.
pub open spec fn meets_finer_ring(camera: GridPos, h: int, level: nat, p: GridPos) -> bool {
    &&& level > 0
    &&& axis_meets_finer_ring(camera.x as int, h, level, p.x as int)
    &&& axis_meets_finer_ring(camera.y as int, 2, level, p.y as int)
    &&& axis_meets_finer_ring(camera.z as int, h, level, p.z as int)
}

/// On one axis, the world span `[c * w, (c + 1) * w]` of chunk coordinate
/// `c` at `level` lies within `[(pc - half) * pw, (pc + half) * pw]`, for
/// `pc` the chunk at `level - 1` that holds camera coordinate `cam`.
pub open spec fn axis_within_finer_ring(cam: int, half: int, level: nat, c: int) -> bool {
    let w = chunk_world_size(level);
    let pw = chunk_world_size((level - 1) as nat);
    let pc = chunk_coord(cam, (level - 1) as nat);
    &&& c * w >= (pc - half) * pw
    &&& (c + 1) * w <= (pc + half) * pw
}

/// Chunk `p` at `level > 0` lies wholly inside the cube of half-extent `h`
/// (in chunks of `level - 1`) around the finer ring's centre chunk, on all
/// three axes.
pub open spec fn within_finer_cube(camera: GridPos, h: int, level: nat, p: GridPos) -> bool {
    &&& level > 0
    &&& axis_within_finer_ring(camera.x as int, h, level, p.x as int)
    &&& axis_within_finer_ring(camera.y as int, h, level, p.y as int)
    &&& axis_within_finer_ring(camera.z as int, h, level, p.z as int)
}

/// Hole carving: chunk `p` at `level > 0` is left out of its ring when it
/// overlaps what the finer ring fills, or lies inside the finer ring's
/// cube of half-extent `h`, so that no two levels draw the same space.
pub open spec fn carved_by_finer_ring(camera: GridPos, h: int, level: nat, p: GridPos) -> bool {
    meets_finer_ring(camera, h, level, p) || within_finer_cube(camera, h, level, p)
}

/// `p` is one of the chunks that the ring at `level` keeps alive.
pub open spec fn is_ring_chunk(camera: GridPos, ring_size: int, level: nat, p: GridPos) -> bool {
    let h = half_ring(ring_size);
    &&& in_ring_box(camera, h, level, p)
    &&& !carved_by_finer_ring(camera, h, level, p)
}

/// Offsets of `p` from the ring centre come before the cursor `(dx, dy, dz)`
/// in the order in which `ring_chunks` visits them.
spec fn visited_before(
    camera: GridPos,
    level: nat,
    p: GridPos,
    dx: int,
    dy: int,
    dz: int,
) -> bool {
    let ox = p.x - chunk_coord(camera.x as int, level);
    let oy = p.y - chunk_coord(camera.y as int, level);
    let oz = p.z - chunk_coord(camera.z as int, level);
    ox < dx || (ox == dx && (oy < dy || (oy == dy && oz < dz)))
}

proof fn lemma_axis_meets_finer_ring(cam: int, half: int, level: nat, c: int)
    requires
        level > 0,
    ensures
        axis_meets_finer_ring(cam, half, level, c) <==> ({
            let pc = chunk_coord(cam, (level - 1) as nat);
            2 * c < pc + half && 2 * c + 2 > pc - half
        }),
{
    law_chunk_world_size_doubles(level);
    let w = chunk_world_size(level);
    let pw = chunk_world_size((level - 1) as nat);
    let pc = chunk_coord(cam, (level - 1) as nat);
    assert(c * w < (pc + half) * pw <==> 2 * c < pc + half) by (nonlinear_arith)
        requires
            w == 2 * pw,
            pw > 0,
    ;
    assert((c + 1) * w > (pc - half) * pw <==> 2 * c + 2 > pc - half) by (nonlinear_arith)
        requires
            w == 2 * pw,
            pw > 0,
    ;
}

proof fn lemma_axis_within_finer_ring(cam: int, half: int, level: nat, c: int)
    requires
        level > 0,
    ensures
        axis_within_finer_ring(cam, half, level, c) <==> ({
            let pc = chunk_coord(cam, (level - 1) as nat);
            pc - half <= 2 * c && 2 * c + 2 <= pc + half
        }),
{
    law_chunk_world_size_doubles(level);
    let w = chunk_world_size(level);
    let pw = chunk_world_size((level - 1) as nat);
    let pc = chunk_coord(cam, (level - 1) as nat);
    assert(c * w >= (pc - half) * pw <==> pc - half <= 2 * c) by (nonlinear_arith)
        requires
            w == 2 * pw,
            pw > 0,
    ;
    assert((c + 1) * w <= (pc + half) * pw <==> 2 * c + 2 <= pc + half) by (nonlinear_arith)
        requires
            w == 2 * pw,
            pw > 0,
    ;
}

/// `ring_size / 2`, rounded toward zero.
fn half_ring_of(ring_size: i32) -> (h: i64)
    ensures
        h == half_ring(ring_size as int),
        -1073741824 <= h <= 1073741823,
{
    if ring_size >= 0 {
        (ring_size / 2) as i64
    } else {
        let n: i64 = -(ring_size as i64);
        -(n / 2)
    }
}

/// Whether chunk coordinate `c` meets the finer ring on one axis, given
/// the finer ring's centre `pc` and half-extent `half` (compared in chunk
/// units of the finer level).
fn axis_meets_finer(pc: i64, half: i64, c: i64) -> (b: bool)
    requires
        -67108864 <= pc < 67108864,
        -1073741824 <= half <= 1073741823,
        -2147483648 <= c < 2147483648,
    ensures
        b == (2 * c < pc + half && 2 * c + 2 > pc - half),
{
    2 * c < pc + half && 2 * c + 2 > pc - half
}

/// Whether chunk coordinate `c` lies within the finer ring's cube on one
/// axis, given the finer ring's centre `pc` and half-extent `half`
/// (compared in chunk units of the finer level).
fn axis_within_finer(pc: i64, half: i64, c: i64) -> (b: bool)
    requires
        -67108864 <= pc < 67108864,
        -1073741824 <= half <= 1073741823,
        -2147483648 <= c < 2147483648,
    ensures
        b == (pc - half <= 2 * c && 2 * c + 2 <= pc + half),
{
    pc - half <= 2 * c && 2 * c + 2 <= pc + half
}

/// The chunks of the ring at `level` around the camera cell: every chunk
/// in the ring's box except those carved out for the finer ring.
/// The result holds each such chunk once, and no other.
pub fn ring_chunks(config: &ClipmapConfig, camera: GridPos, level: u32) -> (chunks: Vec<GridPos>)
    ensures
        chunks@.no_duplicates(),
        forall|p: GridPos|
            chunks@.contains(p) <==> is_ring_chunk(camera, config.ring_size as int, level as nat, p),
        chunks@.len() <= ring_capacity(config.ring_size as int),
        level == 0 ==> chunks@.len() == ring_capacity(config.ring_size as int),
{
    let h = half_ring_of(config.ring_size);
    let ghost hh = h as int;
    let ghost lv = level as nat;
    let cx = chunk_coord_of(camera.x, level) as i64;
    let cy = chunk_coord_of(camera.y, level) as i64;
    let cz = chunk_coord_of(camera.z, level) as i64;
    let (px, py, pz) = if level > 0 {
        (
            chunk_coord_of(camera.x, level - 1) as i64,
            chunk_coord_of(camera.y, level - 1) as i64,
            chunk_coord_of(camera.z, level - 1) as i64,
        )
    } else {
        (0i64, 0i64, 0i64)
    };
    let mut chunks: Vec<GridPos> = Vec::new();
    let mut dx: i64 = -h;
    assert((dx + h) * 4 * (2 * h) == 0) by (nonlinear_arith)
        requires
            dx == -h,
    ;
    while dx < h
        invariant
            hh == h,
            lv == level as nat,
            h == half_ring(config.ring_size as int),
            -1073741824 <= h <= 1073741823,
            -h <= dx <= h || (h < 0 && dx == -h),
            cx == chunk_coord(camera.x as int, lv),
            cy == chunk_coord(camera.y as int, lv),
            cz == chunk_coord(camera.z as int, lv),
            -67108864 <= cx < 67108864,
            -67108864 <= cy < 67108864,
            -67108864 <= cz < 67108864,
            level > 0 ==> px == chunk_coord(camera.x as int, (lv - 1) as nat),
            level > 0 ==> py == chunk_coord(camera.y as int, (lv - 1) as nat),
            level > 0 ==> pz == chunk_coord(camera.z as int, (lv - 1) as nat),
            -67108864 <= px < 67108864,
            -67108864 <= py < 67108864,
            -67108864 <= pz < 67108864,
            chunks@.no_duplicates(),
            forall|p: GridPos|
                chunks@.contains(p) <==> (is_ring_chunk(camera, config.ring_size as int, lv, p)
                    && visited_before(camera, lv, p, dx as int, -2, -hh)),
            h > 0 ==> chunks@.len() <= (dx + h) * 4 * (2 * h),
            h > 0 && level == 0 ==> chunks@.len() == (dx + h) * 4 * (2 * h),
            h <= 0 ==> chunks@.len() == 0,
        decreases h - dx,
    {
        let mut dy: i64 = -2;
        while dy < 2
            invariant
                hh == h,
            lv == level as nat,
                h == half_ring(config.ring_size as int),
                -1073741824 <= h <= 1073741823,
                -h <= dx < h,
                -2 <= dy <= 2,
                cx == chunk_coord(camera.x as int, lv),
                cy == chunk_coord(camera.y as int, lv),
                cz == chunk_coord(camera.z as int, lv),
                -67108864 <= cx < 67108864,
                -67108864 <= cy < 67108864,
                -67108864 <= cz < 67108864,
                level > 0 ==> px == chunk_coord(camera.x as int, (lv - 1) as nat),
                level > 0 ==> py == chunk_coord(camera.y as int, (lv - 1) as nat),
                level > 0 ==> pz == chunk_coord(camera.z as int, (lv - 1) as nat),
                -67108864 <= px < 67108864,
                -67108864 <= py < 67108864,
                -67108864 <= pz < 67108864,
                chunks@.no_duplicates(),
                forall|p: GridPos|
                    chunks@.contains(p) <==> (is_ring_chunk(camera, config.ring_size as int, lv, p)
                        && visited_before(camera, lv, p, dx as int, dy as int, -hh)),
                chunks@.len() <= ((dx + h) * 4 + (dy + 2)) * (2 * h),
                level == 0 ==> chunks@.len() == ((dx + h) * 4 + (dy + 2)) * (2 * h),
            decreases 2 - dy,
        {
            let mut dz: i64 = -h;
            while dz < h
                invariant
                    hh == h,
                    lv == level as nat,
                    h == half_ring(config.ring_size as int),
                    -1073741824 <= h <= 1073741823,
                    -h <= dx < h,
                    -2 <= dy < 2,
                    -h <= dz <= h,
                    cx == chunk_coord(camera.x as int, lv),
                    cy == chunk_coord(camera.y as int, lv),
                    cz == chunk_coord(camera.z as int, lv),
                    -67108864 <= cx < 67108864,
                    -67108864 <= cy < 67108864,
                    -67108864 <= cz < 67108864,
                    level > 0 ==> px == chunk_coord(camera.x as int, (lv - 1) as nat),
                    level > 0 ==> py == chunk_coord(camera.y as int, (lv - 1) as nat),
                    level > 0 ==> pz == chunk_coord(camera.z as int, (lv - 1) as nat),
                    -67108864 <= px < 67108864,
                    -67108864 <= py < 67108864,
                    -67108864 <= pz < 67108864,
                    chunks@.no_duplicates(),
                    forall|p: GridPos|
                        chunks@.contains(p) <==> (is_ring_chunk(camera, config.ring_size as int, lv, p)
                            && visited_before(camera, lv, p, dx as int, dy as int, dz as int)),
                    chunks@.len() <= ((dx + h) * 4 + (dy + 2)) * (2 * h) + (dz + h),
                    level == 0 ==> chunks@.len() == ((dx + h) * 4 + (dy + 2)) * (2 * h) + (dz + h),
                decreases h - dz,
            {
                let p = GridPos { x: (cx + dx) as i32, y: (cy + dy) as i32, z: (cz + dz) as i32 };
                let meets = axis_meets_finer(px, h, p.x as i64) && axis_meets_finer(py, 2, p.y as i64)
                    && axis_meets_finer(pz, h, p.z as i64);
                let within = axis_within_finer(px, h, p.x as i64) && axis_within_finer(py, h, p.y as i64)
                    && axis_within_finer(pz, h, p.z as i64);
                let covered = level > 0 && (meets || within);
                proof {
                    if level > 0 {
                        lemma_axis_meets_finer_ring(camera.x as int, hh, lv, p.x as int);
                        lemma_axis_meets_finer_ring(camera.y as int, 2, lv, p.y as int);
                        lemma_axis_meets_finer_ring(camera.z as int, hh, lv, p.z as int);
                        lemma_axis_within_finer_ring(camera.x as int, hh, lv, p.x as int);
                        lemma_axis_within_finer_ring(camera.y as int, hh, lv, p.y as int);
                        lemma_axis_within_finer_ring(camera.z as int, hh, lv, p.z as int);
                    }
                    assert(covered == carved_by_finer_ring(camera, hh, lv, p));
                    assert(in_ring_box(camera, hh, lv, p));
                    assert(!visited_before(camera, lv, p, dx as int, dy as int, dz as int));
                }
                let ghost before = chunks@;
                if !covered {
                    proof {
                        lemma_push_fresh(before, p);
                    }
                    chunks.push(p);
                }
                proof {
                    assert forall|q: GridPos|
                        chunks@.contains(q) <==> (is_ring_chunk(camera, config.ring_size as int, lv, q)
                            && visited_before(camera, lv, q, dx as int, dy as int, dz + 1)) by {
                        if !covered {
                            assert(chunks@ == before.push(p));
                            assert(chunks@.contains(q) <==> (before.contains(q) || q == p));
                        } else {
                            assert(chunks@ == before);
                        }
                        if q == p {
                            assert(!before.contains(q));
                        }
                    }
                    assert(chunks@.len() <= ((dx + h) * 4 + (dy + 2)) * (2 * h) + (dz + 1 + h));
                    assert(level == 0 ==> chunks@.len() == ((dx + h) * 4 + (dy + 2)) * (2 * h) + (dz + 1 + h));
                }
                dz = dz + 1;
            }
            assert(((dx + h) * 4 + (dy + 2)) * (2 * h) + (dz + h) == ((dx + h) * 4 + (dy + 1 + 2)) * (2 * h))
                by (nonlinear_arith)
                requires
                    dz == h,
            ;
            dy = dy + 1;
        }
        assert(((dx + h) * 4 + (dy + 2)) * (2 * h) == (dx + 1 + h) * 4 * (2 * h)) by (nonlinear_arith)
            requires
                dy == 2,
        ;
        dx = dx + 1;
    }
    assert(chunks@.len() <= ring_capacity(config.ring_size as int) && (level == 0 ==> chunks@.len()
        == ring_capacity(config.ring_size as int))) by {
        if h > 0 {
            assert((dx + h) * 4 * (2 * h) == 16 * h * h) by (nonlinear_arith)
                requires
                    dx == h,
            ;
        }
    }
    chunks
}

/// One live chunk of a ring: its chunk coordinate and the entity that
/// renders it (the entity's id bits).
#[derive(Clone, Copy, Debug, PartialEq, Eq, Structural)]
pub struct ChunkSlot {
    pub pos: GridPos,
    pub entity: u64,
}

/// The map from chunk coordinate to entity that a list of slots stands
/// for (a later slot overrides an earlier one at the same coordinate).
pub open spec fn slots_map(s: Seq<ChunkSlot>) -> Map<GridPos, u64>
    decreases s.len(),
{
    if s.len() == 0 {
        Map::empty()
    } else {
        slots_map(s.drop_last()).insert(s.last().pos, s.last().entity)
    }
}

/// No two slots share a chunk coordinate.
pub open spec fn distinct_positions(s: Seq<ChunkSlot>) -> bool {
    forall|i: int, j: int| 0 <= i < s.len() && 0 <= j < s.len() && i != j ==> s[i].pos != s[j].pos
}

/// Some slot has chunk coordinate `p`.
pub open spec fn has_position(s: Seq<ChunkSlot>, p: GridPos) -> bool {
    exists|i: int| 0 <= i < s.len() && s[i].pos == p
}

proof fn lemma_slots_map(s: Seq<ChunkSlot>)
    requires
        distinct_positions(s),
    ensures
        forall|p: GridPos|
            #![trigger slots_map(s).dom().contains(p)]
            #![trigger has_position(s, p)]
            slots_map(s).dom().contains(p) <==> has_position(s, p),
        forall|i: int| 0 <= i < s.len() ==> slots_map(s)[#[trigger] s[i].pos] == s[i].entity,
    decreases s.len(),
{
    if s.len() > 0 {
        let t = s.drop_last();
        lemma_slots_map(t);
        assert forall|p: GridPos| slots_map(s).dom().contains(p) <==> has_position(s, p) by {
            if has_position(s, p) {
                let i = choose|i: int| 0 <= i < s.len() && s[i].pos == p;
                if i < s.len() - 1 {
                    assert(t[i].pos == p);
                }
            }
            if has_position(t, p) {
                let i = choose|i: int| 0 <= i < t.len() && t[i].pos == p;
                assert(s[i].pos == p);
            }
        }
        assert forall|i: int| 0 <= i < s.len() implies slots_map(s)[#[trigger] s[i].pos] == s[i].entity by {
            if i < s.len() - 1 {
                assert(t[i] == s[i]);
                assert(s[i].pos != s.last().pos);
            }
        }
    }
}

proof fn lemma_slots_map_push(s: Seq<ChunkSlot>, x: ChunkSlot)
    ensures
        slots_map(s.push(x)) == slots_map(s).insert(x.pos, x.entity),
{
    assert(s.push(x).drop_last() =~= s);
}

/// The live chunks of every level, level by level, as lists of slots.
struct ChunkLevels {
    chunks: Vec<Vec<ChunkSlot>>,
}

/// The chunks of `level` in a clipmap view, empty for a level not yet
/// seen.
pub open spec fn level_map(levels: Seq<Map<GridPos, u64>>, level: int) -> Map<GridPos, u64> {
    if 0 <= level < levels.len() {
        levels[level]
    } else {
        Map::empty()
    }
}

impl ChunkLevels {
    /// For each level seen so far, the map from chunk coordinate to entity.
    spec fn view(&self) -> Seq<Map<GridPos, u64>> {
        Seq::new(self.chunks@.len(), |l: int| slots_map(self.chunks@[l]@))
    }

    /// Within each level, no chunk coordinate has two entities.
    spec fn wf(&self) -> bool {
        forall|l: int| 0 <= l < self.chunks@.len() ==> distinct_positions(#[trigger] self.chunks@[l]@)
    }

    /// An empty clipmap: no level and no chunk.
    fn new() -> (c: ChunkLevels)
        ensures
            c.wf(),
            c@ == Seq::<Map<GridPos, u64>>::empty(),
    {
        let c = ChunkLevels { chunks: Vec::new() };
        assert(c@ =~= Seq::<Map<GridPos, u64>>::empty());
        c
    }

    /// Number of levels the clipmap has entries for.
    fn level_count(&self) -> (n: usize)
        ensures
            n == self@.len(),
    {
        self.chunks.len()
    }

    /// The entity of the chunk at `pos` in `level`, if that chunk is live.
    fn entity_at(&self, level: u32, pos: GridPos) -> (e: Option<u64>)
        requires
            self.wf(),
        ensures
            e == (if level_map(self@, level as int).dom().contains(pos) {
                Some(level_map(self@, level as int)[pos])
            } else {
                None::<u64>
            }),
    {
        if level as usize >= self.chunks.len() {
            return None;
        }
        let slots = &self.chunks[level as usize];
        proof {
            assert(distinct_positions(self.chunks@[level as int]@));
            lemma_slots_map(slots@);
            assert(level_map(self@, level as int) == slots_map(slots@));
        }
        let mut i: usize = 0;
        while i < slots.len()
            invariant
                0 <= i <= slots.len(),
                level_map(self@, level as int) == slots_map(slots@),
                forall|p: GridPos| slots_map(slots@).dom().contains(p) <==> has_position(slots@, p),
                forall|j: int| 0 <= j < slots@.len() ==> slots_map(slots@)[#[trigger] slots@[j].pos] == slots@[j].entity,
                forall|j: int| 0 <= j < i ==> slots@[j].pos != pos,
            decreases slots.len() - i,
        {
            if slots[i].pos == pos {
                proof {
                    assert(slots@[i as int].pos == pos);
                    assert(has_position(slots@, pos));
                    assert(slots_map(slots@)[slots@[i as int].pos] == slots@[i as int].entity);
                }
                return Some(slots[i].entity);
            }
            i = i + 1;
        }
        assert(!has_position(slots@, pos));
        None
    }

    /// Makes sure that `level` has an entry, adding empty levels as needed.
    fn ensure_level(&mut self, level: u32)
        requires
            old(self).wf(),
        ensures
            final(self).wf(),
            final(self)@.len() == (if (level as int) < old(self)@.len() {
                old(self)@.len() as int
            } else {
                level as int + 1
            }),
            forall|l: int| 0 <= l < old(self)@.len() ==> final(self)@[l] == old(self)@[l],
            forall|l: int| old(self)@.len() <= l < final(self)@.len() ==> final(self)@[l] == Map::<GridPos, u64>::empty(),
    {
        while self.chunks.len() <= level as usize
            invariant
                self.wf(),
                old(self)@.len() <= self@.len(),
                self@.len() <= (if (level as int) < old(self)@.len() { old(self)@.len() as int } else { level as int + 1 }),
                forall|l: int| 0 <= l < old(self)@.len() ==> self@[l] == old(self)@[l],
                forall|l: int| old(self)@.len() <= l < self@.len() ==> self@[l] == Map::<GridPos, u64>::empty(),
            decreases level as int + 1 - self.chunks.len(),
        {
            let ghost before = self@;
            let ghost before_chunks = self.chunks@;
            self.chunks.push(Vec::new());
            proof {
                let n = self.chunks@.len() - 1;
                assert(self.chunks@[n]@ =~= Seq::<ChunkSlot>::empty());
                assert(self@[n] == slots_map(Seq::<ChunkSlot>::empty()));
                assert(slots_map(Seq::<ChunkSlot>::empty()) =~= Map::<GridPos, u64>::empty());
                assert forall|l: int| 0 <= l < n implies self@[l] == before[l] by {
                    assert(self.chunks@[l] == before_chunks[l]);
                }
                assert forall|l: int| old(self)@.len() <= l < self@.len() implies self@[l] == Map::<GridPos, u64>::empty() by {
                    if l < n {
                        assert(self@[l] == before[l]);
                    }
                }
            }
        }
    }

    /// Puts `slots` in place of the slots of `level`, and hands back the
    /// slots it replaced.
    fn swap_level(&mut self, level: usize, slots: Vec<ChunkSlot>) -> (previous: Vec<ChunkSlot>)
        requires
            level < old(self).chunks@.len(),
        ensures
            final(self).chunks@ == old(self).chunks@.update(level as int, slots),
            previous == old(self).chunks@[level as int],
    {
        let previous = self.chunks.remove(level);
        self.chunks.insert(level, slots);
        assert(self.chunks@ =~= old(self).chunks@.update(level as int, slots));
        previous
    }

    /// Removes from `level` the chunks that left the ring `ring`, and lists
    /// the ring's chunks that `level` does not hold yet.
    ///
    /// Afterwards the level holds exactly its old chunks that lie in the
    /// ring, with their entities unchanged. `leaving` holds the removed
    /// chunks with their entities, and `entering` the ring's chunks that
    /// the level lacks. The level gets an (empty) entry if it had none.
    fn split_level(&mut self, level: u32, ring: &Vec<GridPos>) -> (split: RingSplit)
        requires
            old(self).wf(),
            ring@.no_duplicates(),
        ensures
            final(self).wf(),
            final(self)@.len() == (if (level as int) < old(self)@.len() {
                old(self)@.len() as int
            } else {
                level as int + 1
            }),
            forall|l: int|
                0 <= l < final(self)@.len() && l != level ==> final(self)@[l] == level_map(old(self)@, l),
            final(self)@[level as int] == level_map(old(self)@, level as int).restrict(ring@.to_set()),
            split.entering@.no_duplicates(),
            forall|p: GridPos|
                split.entering@.contains(p) <==> (ring@.contains(p) && !level_map(
                    old(self)@,
                    level as int,
                ).dom().contains(p)),
            distinct_positions(split.leaving@),
            slots_map(split.leaving@) == level_map(old(self)@, level as int).remove_keys(ring@.to_set()),
    {
        self.ensure_level(level);
        let ghost start = self@;
        let ghost start_chunks = self.chunks@;
        let slots = self.swap_level(level as usize, Vec::new());
        proof {
            assert(distinct_positions(slots@));
            assert(start[level as int] == slots_map(slots@));
            lemma_slots_map(slots@);
        }
        let mut kept: Vec<ChunkSlot> = Vec::new();
        let mut despawn: Vec<ChunkSlot> = Vec::new();
        let mut i: usize = 0;
        while i < slots.len()
            invariant
                0 <= i <= slots.len(),
                distinct_positions(slots@),
                distinct_positions(kept@),
                distinct_positions(despawn@),
                forall|j: int| 0 <= j < kept@.len() ==> slots@.take(i as int).contains(#[trigger] kept@[j]),
                forall|j: int| 0 <= j < despawn@.len() ==> slots@.take(i as int).contains(#[trigger] despawn@[j]),
                forall|p: GridPos|
                    has_position(kept@, p) <==> (has_position(slots@.take(i as int), p) && ring@.contains(p)),
                forall|p: GridPos|
                    has_position(despawn@, p) <==> (has_position(slots@.take(i as int), p) && !ring@.contains(p)),
            decreases slots.len() - i,
        {
            let slot = slots[i];
            let ghost take_i = slots@.take(i as int);
            let ghost take_next = slots@.take(i as int + 1);
            proof {
                assert(take_next =~= take_i.push(slot));
                assert(!has_position(take_i, slot.pos)) by {
                    if has_position(take_i, slot.pos) {
                        let k = choose|k: int| 0 <= k < take_i.len() && take_i[k].pos == slot.pos;
                        assert(slots@[k].pos == slots@[i as int].pos);
                    }
                }
                assert forall|p: GridPos| has_position(take_next, p) <==> (has_position(take_i, p) || p == slot.pos) by {
                    if has_position(take_next, p) {
                        let k = choose|k: int| 0 <= k < take_next.len() && take_next[k].pos == p;
                        if k < i {
                            assert(take_i[k].pos == p);
                        }
                    }
                    if has_position(take_i, p) {
                        let k = choose|k: int| 0 <= k < take_i.len() && take_i[k].pos == p;
                        assert(take_next[k].pos == p);
                    }
                    if p == slot.pos {
                        assert(take_next[i as int].pos == p);
                    }
                }
                assert forall|x: ChunkSlot| take_i.contains(x) implies take_next.contains(x) by {
                    let k = choose|k: int| 0 <= k < take_i.len() && take_i[k] == x;
                    assert(take_next[k] == x);
                }
                assert(take_next.contains(slot)) by {
                    assert(take_next[i as int] == slot);
                }
            }
            let in_ring = contains_pos(ring, slot.pos);
            if in_ring {
                let ghost before = kept@;
                kept.push(slot);
                proof {
                    lemma_push_fresh_position(before, slot);
                    assert(has_position(before, slot.pos) ==> has_position(take_i, slot.pos));
                }
            } else {
                let ghost before = despawn@;
                despawn.push(slot);
                proof {
                    lemma_push_fresh_position(before, slot);
                    assert(has_position(before, slot.pos) ==> has_position(take_i, slot.pos));
                }
            }
            i = i + 1;
        }
        proof {
            assert(slots@.take(slots@.len() as int) =~= slots@);
        }
        let mut spawn: Vec<GridPos> = Vec::new();
        let mut k: usize = 0;
        while k < ring.len()
            invariant
                0 <= k <= ring.len(),
                ring@.no_duplicates(),
                spawn@.no_duplicates(),
                forall|p: GridPos|
                    spawn@.contains(p) <==> (ring@.take(k as int).contains(p) && !has_position(slots@, p)),
            decreases ring.len() - k,
        {
            let p = ring[k];
            let present = has_slot_at(&slots, p);
            let ghost spawn0 = spawn@;
            let ghost take_k = ring@.take(k as int);
            proof {
                assert(ring@.take(k as int + 1) =~= take_k.push(p));
                assert(!take_k.contains(p)) by {
                    if take_k.contains(p) {
                        let j = choose|j: int| 0 <= j < take_k.len() && take_k[j] == p;
                        assert(ring@[j] == ring@[k as int]);
                    }
                }
            }
            if !present {
                proof {
                    lemma_push_fresh(spawn0, p);
                }
                spawn.push(p);
            }
            proof {
                lemma_push_contains(take_k, p);
                assert forall|q: GridPos|
                    spawn@.contains(q) <==> (ring@.take(k as int + 1).contains(q) && !has_position(slots@, q)) by {
                    if present {
                        assert(spawn@ == spawn0);
                        assert(spawn0.contains(q) <==> (take_k.contains(q) && !has_position(slots@, q)));
                    } else {
                        assert(spawn@.contains(q) <==> (spawn0.contains(q) || q == p));
                    }
                }
            }
            k = k + 1;
        }
        proof {
            assert(ring@.take(ring@.len() as int) =~= ring@);
            lemma_slots_map(kept@);
            lemma_slots_map(despawn@);
            lemma_sub_slots(kept@, slots@);
            lemma_sub_slots(despawn@, slots@);
            let m = slots_map(slots@);
            let rs = ring@.to_set();
            assert(slots_map(kept@) =~= m.restrict(rs));
            assert(slots_map(despawn@) =~= m.remove_keys(rs));
        }
        let ghost mid = self.chunks@;
        let _ = self.swap_level(level as usize, kept);
        proof {
            assert(self.chunks@ == mid.update(level as int, kept));
            assert forall|l: int| 0 <= l < self.chunks@.len() implies distinct_positions(#[trigger] self.chunks@[l]@) by {
                if l != level {
                    assert(self.chunks@[l] == mid[l]);
                }
            }
            assert forall|l: int| 0 <= l < self@.len() && l != level implies self@[l] == level_map(old(self)@, l) by {
                assert(self.chunks@[l] == mid[l]);
                assert(mid[l] == start_chunks[l]);
                assert(self@[l] == slots_map(self.chunks@[l]@));
                assert(start[l] == slots_map(start_chunks[l]@));
            }
            assert(self@[level as int] == slots_map(kept@));
        }
        RingSplit { entering: spawn, leaving: despawn }
    }

    /// Records that the chunk at `pos` of `level` is rendered by `entity`
    /// (replacing any entity recorded there before).
    fn insert_chunk(&mut self, level: u32, pos: GridPos, entity: u64)
        requires
            old(self).wf(),
        ensures
            final(self).wf(),
            final(self)@.len() == (if (level as int) < old(self)@.len() {
                old(self)@.len() as int
            } else {
                level as int + 1
            }),
            forall|l: int|
                0 <= l < final(self)@.len() && l != level ==> final(self)@[l] == level_map(old(self)@, l),
            final(self)@[level as int] == level_map(old(self)@, level as int).insert(pos, entity),
    {
        self.ensure_level(level);
        let ghost start = self@;
        let ghost start_chunks = self.chunks@;
        let mut slots = self.swap_level(level as usize, Vec::new());
        let ghost old_slots = slots@;
        proof {
            assert(distinct_positions(slots@));
            assert(start[level as int] == slots_map(slots@));
            lemma_slots_map(slots@);
        }
        let slot = ChunkSlot { pos, entity };
        match find_slot(&slots, pos) {
            Some(i) => {
                slots.set(i, slot);
                proof {
                    assert(slots@ == old_slots.update(i as int, slot));
                    assert(distinct_positions(slots@)) by {
                        assert forall|a: int, b: int|
                            0 <= a < slots@.len() && 0 <= b < slots@.len() && a != b implies slots@[a].pos
                            != slots@[b].pos by {
                            assert(slots@[a].pos == old_slots[a].pos);
                            assert(slots@[b].pos == old_slots[b].pos);
                        }
                    }
                    lemma_slots_map(slots@);
                    assert forall|p: GridPos| has_position(slots@, p) <==> has_position(old_slots, p) by {
                        if has_position(slots@, p) {
                            let k = choose|k: int| 0 <= k < slots@.len() && slots@[k].pos == p;
                            assert(old_slots[k].pos == p);
                        }
                        if has_position(old_slots, p) {
                            let k = choose|k: int| 0 <= k < old_slots.len() && old_slots[k].pos == p;
                            assert(slots@[k].pos == p);
                        }
                    }
                    assert forall|p: GridPos| #[trigger] slots_map(slots@).dom().contains(p) implies slots_map(slots@)[p]
                        == slots_map(old_slots).insert(pos, entity)[p] by {
                        assert(has_position(slots@, p));
                        let k = choose|k: int| 0 <= k < slots@.len() && slots@[k].pos == p;
                        assert(slots_map(slots@)[slots@[k].pos] == slots@[k].entity);
                        if k != i {
                            assert(old_slots[k] == slots@[k]);
                            assert(slots_map(old_slots)[old_slots[k].pos] == old_slots[k].entity);
                        }
                    }
                    assert(old_slots[i as int].pos == pos);
                    assert(has_position(old_slots, pos));
                    assert(slots_map(old_slots).dom().contains(pos));
                    assert(slots_map(slots@).dom() =~= slots_map(old_slots).insert(pos, entity).dom());
                    assert(slots_map(slots@) =~= slots_map(old_slots).insert(pos, entity));
                }
            },
            None => {
                let ghost before = slots@;
                proof {
                    lemma_push_fresh_position(before, slot);
                    lemma_slots_map_push(before, slot);
                }
                slots.push(slot);
            },
        }
        let ghost mid = self.chunks@;
        let _ = self.swap_level(level as usize, slots);
        proof {
            assert(self.chunks@ == mid.update(level as int, slots));
            assert forall|l: int| 0 <= l < self.chunks@.len() implies distinct_positions(#[trigger] self.chunks@[l]@) by {
                if l != level {
                    assert(self.chunks@[l] == mid[l]);
                    assert(mid[l] == start_chunks[l]);
                }
            }
            assert forall|l: int| 0 <= l < self@.len() && l != level implies self@[l] == level_map(old(self)@, l) by {
                assert(self.chunks@[l] == mid[l]);
                assert(mid[l] == start_chunks[l]);
                assert(self@[l] == slots_map(self.chunks@[l]@));
                assert(start[l] == slots_map(start_chunks[l]@));
            }
            assert(self@[level as int] == slots_map(slots@));
        }
    }

    /// Records the entities of freshly spawned chunks of `level`, one slot
    /// after the other.
    fn insert_chunks(&mut self, level: u32, spawned: &Vec<ChunkSlot>)
        requires
            old(self).wf(),
        ensures
            final(self).wf(),
            final(self)@.len() == (if (level as int) < old(self)@.len() {
                old(self)@.len() as int
            } else {
                level as int + 1
            }),
            forall|l: int|
                0 <= l < final(self)@.len() && l != level ==> final(self)@[l] == level_map(old(self)@, l),
            final(self)@[level as int] == level_map(old(self)@, level as int).union_prefer_right(
                slots_map(spawned@),
            ),
    {
        self.ensure_level(level);
        let mut i: usize = 0;
        while i < spawned.len()
            invariant
                0 <= i <= spawned.len(),
                self.wf(),
                self@.len() == (if (level as int) < old(self)@.len() {
                    old(self)@.len() as int
                } else {
                    level as int + 1
                }),
                forall|l: int|
                    0 <= l < self@.len() && l != level ==> self@[l] == level_map(old(self)@, l),
                self@[level as int] == level_map(old(self)@, level as int).union_prefer_right(
                    slots_map(spawned@.take(i as int)),
                ),
            decreases spawned.len() - i,
        {
            let slot = spawned[i];
            self.insert_chunk(level, slot.pos, slot.entity);
            proof {
                assert(spawned@.take(i as int + 1) =~= spawned@.take(i as int).push(slot));
                lemma_slots_map_push(spawned@.take(i as int), slot);
                assert(self@[level as int] =~= level_map(old(self)@, level as int).union_prefer_right(
                    slots_map(spawned@.take(i as int + 1))));
            }
            i = i + 1;
        }
        proof {
            assert(spawned@.take(spawned@.len() as int) =~= spawned@);
        }
    }
}

/// The chunks of the ring at `level` around the camera cell, as a set.
pub open spec fn ring_set(camera: GridPos, ring_size: int, level: nat) -> Set<GridPos> {
    Set::new(|p: GridPos| is_ring_chunk(camera, ring_size, level, p))
}

/// An entity that is moved from a chunk that left the ring to a chunk
/// that entered it, instead of one being despawned and another spawned.
#[derive(Clone, Copy, Debug, PartialEq, Eq, Structural)]
pub struct ChunkMove {
    pub entity: u64,
    pub from: GridPos,
    pub to: GridPos,
}

/// The slots that moved entities leave.
pub open spec fn moved_from(moves: Seq<ChunkMove>) -> Seq<ChunkSlot> {
    moves.map_values(|m: ChunkMove| ChunkSlot { pos: m.from, entity: m.entity })
}

/// The slots that moved entities take.
pub open spec fn moved_to(moves: Seq<ChunkMove>) -> Seq<ChunkSlot> {
    moves.map_values(|m: ChunkMove| ChunkSlot { pos: m.to, entity: m.entity })
}

/// What a level needs after its ring moved: entities moved from chunks
/// that left the ring to chunks that entered it, chunks that entered and
/// still need a new entity, and chunks that left whose entity goes away.
pub struct LevelUpdate {
    pub moves: Vec<ChunkMove>,
    pub spawn: Vec<GridPos>,
    pub despawn: Vec<ChunkSlot>,
}

/// Updating a level from `before` to the ring `ring` gave `after` and the
/// plan `(moves, spawn, despawn)`:
/// - chunks that stay in the ring keep their entity, and each move puts
///   its entity at its target chunk;
/// - every chunk that left the ring either gives its entity to a move or
///   is despawned with it, never both;
/// - every chunk that entered the ring is the target of a move or is
///   spawned, never both;
/// - entities are reused as far as they go: nothing is both spawned and
///   despawned.
pub open spec fn level_update_holds(
    before: Map<GridPos, u64>,
    ring: Set<GridPos>,
    after: Map<GridPos, u64>,
    moves: Seq<ChunkMove>,
    spawn: Seq<GridPos>,
    despawn: Seq<ChunkSlot>,
) -> bool {
    &&& after == before.restrict(ring).union_prefer_right(slots_map(moved_to(moves)))
    &&& distinct_positions(moved_from(moves))
    &&& distinct_positions(moved_to(moves))
    &&& distinct_positions(despawn)
    &&& spawn.no_duplicates()
    &&& slots_map(moved_from(moves)).union_prefer_right(slots_map(despawn)) == before.remove_keys(ring)
    &&& forall|p: GridPos|
        #![trigger has_position(moved_from(moves), p)]
        #![trigger has_position(despawn, p)]
        !(has_position(moved_from(moves), p) && has_position(despawn, p))
    &&& forall|p: GridPos|
        #![trigger has_position(moved_to(moves), p)]
        #![trigger spawn.contains(p)]
        (has_position(moved_to(moves), p) || spawn.contains(p)) <==> (ring.contains(p)
            && !before.dom().contains(p))
    &&& forall|p: GridPos|
        #![trigger has_position(moved_to(moves), p)]
        #![trigger spawn.contains(p)]
        !(has_position(moved_to(moves), p) && spawn.contains(p))
    &&& (spawn.len() == 0 || despawn.len() == 0)
}

/// Splitting distinct slots at `m` gives two lists with distinct positions,
/// none shared, whose maps together make the whole list's map.
proof fn lemma_split_slots(s: Seq<ChunkSlot>, m: int)
    requires
        distinct_positions(s),
        0 <= m <= s.len(),
    ensures
        distinct_positions(s.subrange(0, m)),
        distinct_positions(s.subrange(m, s.len() as int)),
        forall|p: GridPos|
            !(has_position(s.subrange(0, m), p) && has_position(s.subrange(m, s.len() as int), p)),
        slots_map(s.subrange(0, m)).union_prefer_right(slots_map(s.subrange(m, s.len() as int)))
            == slots_map(s),
{
    let a = s.subrange(0, m);
    let b = s.subrange(m, s.len() as int);
    assert forall|i: int, j: int| 0 <= i < a.len() && 0 <= j < a.len() && i != j implies a[i].pos != a[j].pos by {
        assert(a[i] == s[i] && a[j] == s[j]);
    }
    assert forall|i: int, j: int| 0 <= i < b.len() && 0 <= j < b.len() && i != j implies b[i].pos != b[j].pos by {
        assert(b[i] == s[m + i] && b[j] == s[m + j]);
    }
    assert forall|p: GridPos| !(has_position(a, p) && has_position(b, p)) by {
        if has_position(a, p) && has_position(b, p) {
            let i = choose|i: int| 0 <= i < a.len() && a[i].pos == p;
            let j = choose|j: int| 0 <= j < b.len() && b[j].pos == p;
            assert(s[i].pos == s[m + j].pos);
        }
    }
    lemma_slots_map(a);
    lemma_slots_map(b);
    lemma_slots_map(s);
    let u = slots_map(a).union_prefer_right(slots_map(b));
    assert forall|p: GridPos| u.dom().contains(p) <==> slots_map(s).dom().contains(p) by {
        if has_position(s, p) {
            let k = choose|k: int| 0 <= k < s.len() && s[k].pos == p;
            if k < m {
                assert(a[k].pos == p);
            } else {
                assert(b[k - m].pos == p);
            }
        }
        if has_position(a, p) {
            let i = choose|i: int| 0 <= i < a.len() && a[i].pos == p;
            assert(s[i].pos == p);
        }
        if has_position(b, p) {
            let j = choose|j: int| 0 <= j < b.len() && b[j].pos == p;
            assert(s[m + j].pos == p);
        }
    }
    assert forall|p: GridPos| #[trigger] u.dom().contains(p) implies u[p] == slots_map(s)[p] by {
        if has_position(b, p) {
            let j = choose|j: int| 0 <= j < b.len() && b[j].pos == p;
            assert(slots_map(b)[b[j].pos] == b[j].entity);
            assert(b[j] == s[m + j]);
            assert(slots_map(s)[s[m + j].pos] == s[m + j].entity);
        } else {
            let i = choose|i: int| 0 <= i < a.len() && a[i].pos == p;
            assert(slots_map(a)[a[i].pos] == a[i].entity);
            assert(a[i] == s[i]);
            assert(slots_map(s)[s[i].pos] == s[i].entity);
        }
    }
    assert(u =~= slots_map(s));
}

/// A list of slots with distinct positions maps as many positions as it
/// has slots.
proof fn lemma_slots_map_len(s: Seq<ChunkSlot>)
    requires
        distinct_positions(s),
    ensures
        slots_map(s).dom().finite(),
        slots_map(s).dom().len() == s.len(),
{
    lemma_slots_map(s);
    let ps = s.map_values(|x: ChunkSlot| x.pos);
    assert(ps.no_duplicates()) by {
        assert forall|i: int, j: int| 0 <= i < ps.len() && 0 <= j < ps.len() && i != j implies ps[i] != ps[j] by {
            assert(ps[i] == s[i].pos && ps[j] == s[j].pos);
        }
    }
    assert forall|p: GridPos| ps.to_set().contains(p) <==> slots_map(s).dom().contains(p) by {
        if has_position(s, p) {
            let i = choose|i: int| 0 <= i < s.len() && s[i].pos == p;
            assert(ps[i] == p);
        }
        if ps.contains(p) {
            let i = choose|i: int| 0 <= i < ps.len() && ps[i] == p;
            assert(s[i].pos == p);
        }
    }
    assert(ps.to_set() =~= slots_map(s).dom());
    ps.unique_seq_to_set();
    vstd::seq_lib::seq_to_set_is_finite(ps);
}

impl ChunkLevels {
    /// Moves `level` to the ring `ring`, reusing the entities of chunks that
    /// left the ring for chunks that entered it; see `level_update_holds`.
    /// When the level held as many chunks as the ring has, every entity
    /// is reused: nothing is spawned or despawned.
    fn update_level(&mut self, level: u32, ring: &Vec<GridPos>) -> (update: LevelUpdate)
        requires
            old(self).wf(),
            ring@.no_duplicates(),
        ensures
            final(self).wf(),
            final(self)@.len() == (if (level as int) < old(self)@.len() {
                old(self)@.len() as int
            } else {
                level as int + 1
            }),
            forall|l: int|
                0 <= l < final(self)@.len() && l != level ==> final(self)@[l] == level_map(old(self)@, l),
            level_update_holds(
                level_map(old(self)@, level as int),
                ring@.to_set(),
                final(self)@[level as int],
                update.moves@,
                update.spawn@,
                update.despawn@,
            ),
            level_map(old(self)@, level as int).len() == ring@.len() ==> update.spawn@.len() == 0
                && update.despawn@.len() == 0,
    {
        let ghost before = level_map(self@, level as int);
        let ghost rs = ring@.to_set();
        let split = self.split_level(level, ring);
        let entering = split.entering;
        let leaving = split.leaving;
        let ghost mid = self@;
        let m: usize = if leaving.len() < entering.len() {
            leaving.len()
        } else {
            entering.len()
        };
        let mut moves: Vec<ChunkMove> = Vec::new();
        let mut moved_in: Vec<ChunkSlot> = Vec::new();
        let mut i: usize = 0;
        while i < m
            invariant
                m <= leaving@.len(),
                m <= entering@.len(),
                i <= m,
                moves@.len() == i,
                moved_in@.len() == i,
                forall|j: int|
                    0 <= j < i ==> #[trigger] moves@[j] == (ChunkMove {
                        entity: leaving@[j].entity,
                        from: leaving@[j].pos,
                        to: entering@[j],
                    }),
                forall|j: int|
                    0 <= j < i ==> #[trigger] moved_in@[j] == (ChunkSlot {
                        pos: entering@[j],
                        entity: leaving@[j].entity,
                    }),
            decreases m - i,
        {
            let from = leaving[i];
            let to = entering[i];
            moves.push(ChunkMove { entity: from.entity, from: from.pos, to });
            moved_in.push(ChunkSlot { pos: to, entity: from.entity });
            i = i + 1;
        }
        let mut despawn: Vec<ChunkSlot> = Vec::new();
        let mut j: usize = m;
        while j < leaving.len()
            invariant
                m <= j <= leaving@.len(),
                despawn@ == leaving@.subrange(m as int, j as int),
            decreases leaving.len() - j,
        {
            despawn.push(leaving[j]);
            assert(despawn@ =~= leaving@.subrange(m as int, j + 1));
            j = j + 1;
        }
        let mut spawn: Vec<GridPos> = Vec::new();
        let mut k: usize = m;
        while k < entering.len()
            invariant
                m <= k <= entering@.len(),
                spawn@ == entering@.subrange(m as int, k as int),
            decreases entering.len() - k,
        {
            spawn.push(entering[k]);
            assert(spawn@ =~= entering@.subrange(m as int, k + 1));
            k = k + 1;
        }
        self.insert_chunks(level, &moved_in);
        proof {
            let mv = moves@;
            let lv = leaving@;
            let en = entering@;
            assert(moved_from(mv) =~= lv.subrange(0, m as int));
            assert(moved_to(mv) =~= moved_in@);
            lemma_split_slots(lv, m as int);
            assert(lv.subrange(m as int, lv.len() as int) == despawn@);
            // entering positions split between move targets and spawns
            assert forall|p: GridPos| has_position(moved_to(mv), p) <==> en.subrange(0, m as int).contains(p) by {
                if has_position(moved_to(mv), p) {
                    let a = choose|a: int| 0 <= a < moved_to(mv).len() && moved_to(mv)[a].pos == p;
                    assert(moved_in@[a].pos == en[a]);
                    assert(en.subrange(0, m as int)[a] == p);
                }
                if en.subrange(0, m as int).contains(p) {
                    let a = choose|a: int| 0 <= a < m && en.subrange(0, m as int)[a] == p;
                    assert(moved_to(mv)[a].pos == p);
                }
            }
            assert forall|p: GridPos| #![trigger has_position(moved_to(mv), p)] #![trigger spawn@.contains(p)]
                (has_position(moved_to(mv), p) || spawn@.contains(p)) <==> en.contains(p) by {
                if en.contains(p) {
                    let a = choose|a: int| 0 <= a < en.len() && en[a] == p;
                    if a < m {
                        assert(en.subrange(0, m as int)[a] == p);
                    } else {
                        assert(spawn@[a - m] == p);
                    }
                }
                if spawn@.contains(p) {
                    let a = choose|a: int| 0 <= a < spawn@.len() && spawn@[a] == p;
                    assert(en[a + m] == p);
                }
                if en.subrange(0, m as int).contains(p) {
                    let a = choose|a: int| 0 <= a < m && en.subrange(0, m as int)[a] == p;
                    assert(en[a] == p);
                }
            }
            assert forall|p: GridPos| #![trigger has_position(moved_to(mv), p)] #![trigger spawn@.contains(p)]
                !(has_position(moved_to(mv), p) && spawn@.contains(p)) by {
                if en.subrange(0, m as int).contains(p) && spawn@.contains(p) {
                    let a = choose|a: int| 0 <= a < m && en.subrange(0, m as int)[a] == p;
                    let b = choose|b: int| 0 <= b < spawn@.len() && spawn@[b] == p;
                    assert(en[a] == en[b + m]);
                }
            }
            assert(distinct_positions(moved_to(mv))) by {
                assert forall|a: int, b: int|
                    0 <= a < moved_to(mv).len() && 0 <= b < moved_to(mv).len() && a != b implies moved_to(mv)[a].pos
                    != moved_to(mv)[b].pos by {
                    assert(moved_in@[a].pos == en[a] && moved_in@[b].pos == en[b]);
                }
            }
            assert(spawn@.no_duplicates()) by {
                assert forall|a: int, b: int| 0 <= a < spawn@.len() && 0 <= b < spawn@.len() && a != b implies spawn@[a]
                    != spawn@[b] by {
                    assert(spawn@[a] == en[a + m] && spawn@[b] == en[b + m]);
                }
            }
            let after = self@[level as int];
            assert(after == before.restrict(rs).union_prefer_right(slots_map(moved_to(mv))));
            assert(distinct_positions(moved_from(mv)));
            assert(distinct_positions(despawn@));
            assert(slots_map(moved_from(mv)).union_prefer_right(slots_map(despawn@)) == before.remove_keys(rs));
            assert(forall|p: GridPos| en.contains(p) <==> (rs.contains(p) && !before.dom().contains(p)));
            assert(spawn@.len() == 0 || despawn@.len() == 0);
            // counting: as many chunks as the ring has means as many leave as enter
            if before.len() == ring@.len() {
                lemma_slots_map_len(lv);
                ring@.unique_seq_to_set();
                en.unique_seq_to_set();
                vstd::seq_lib::seq_to_set_is_finite(ring@);
                assert(slots_map(lv).dom() =~= before.dom().difference(rs));
                assert(en.to_set() =~= rs.difference(before.dom()));
                assert(before.dom().finite()) by {
                    vstd::set::axiom_set_intersect_finite(before.dom(), rs);
                    vstd::set::axiom_set_union_finite(before.dom().intersect(rs), before.dom().difference(rs));
                    assert(before.dom() =~= before.dom().intersect(rs).union(before.dom().difference(rs)));
                }
                vstd::set_lib::lemma_set_difference_len(before.dom(), rs);
                vstd::set_lib::lemma_set_difference_len(rs, before.dom());
                assert(before.dom().intersect(rs) =~= rs.intersect(before.dom()));
            }
        }
        LevelUpdate { moves, spawn, despawn }
    }

    /// Moves every level `0..config.levels` to its ring around the camera
    /// cell, each as `update_level` does; `plan[l]` is the plan of level
    /// `l`. Levels at or above `config.levels` are left as they were.
    fn update_rings(&mut self, config: &ClipmapConfig, camera: GridPos) -> (plan: Vec<LevelUpdate>)
        requires
            old(self).wf(),
        ensures
            final(self).wf(),
            plan@.len() == config.levels,
            final(self)@.len() == (if (config.levels as int) <= old(self)@.len() {
                old(self)@.len() as int
            } else {
                config.levels as int
            }),
            forall|l: int|
                0 <= l < config.levels ==> level_update_holds(
                    level_map(old(self)@, l),
                    ring_set(camera, config.ring_size as int, l as nat),
                    #[trigger] final(self)@[l],
                    plan@[l].moves@,
                    plan@[l].spawn@,
                    plan@[l].despawn@,
                ),
            forall|l: int|
                0 <= l < config.levels && level_map(old(self)@, l).len() == ring_set(
                    camera,
                    config.ring_size as int,
                    l as nat,
                ).len() ==> (#[trigger] plan@[l]).spawn@.len() == 0 && plan@[l].despawn@.len() == 0,
            forall|l: int| config.levels <= l < final(self)@.len() ==> #[trigger] final(self)@[l] == old(self)@[l],
    {
        let mut plan: Vec<LevelUpdate> = Vec::new();
        let mut level: u32 = 0;
        while level < config.levels
            invariant
                self.wf(),
                level <= config.levels,
                plan@.len() == level,
                self@.len() == (if (level as int) <= old(self)@.len() {
                    old(self)@.len() as int
                } else {
                    level as int
                }),
                forall|l: int|
                    0 <= l < level ==> level_update_holds(
                        level_map(old(self)@, l),
                        ring_set(camera, config.ring_size as int, l as nat),
                        #[trigger] self@[l],
                        plan@[l].moves@,
                        plan@[l].spawn@,
                        plan@[l].despawn@,
                    ),
                forall|l: int|
                    0 <= l < level && level_map(old(self)@, l).len() == ring_set(
                        camera,
                        config.ring_size as int,
                        l as nat,
                    ).len() ==> (#[trigger] plan@[l]).spawn@.len() == 0 && plan@[l].despawn@.len() == 0,
                forall|l: int| level <= l < self@.len() ==> #[trigger] self@[l] == level_map(old(self)@, l),
            decreases config.levels - level,
        {
            let ring = ring_chunks(config, camera, level);
            let ghost before = self@;
            let ghost rs = ring_set(camera, config.ring_size as int, level as nat);
            proof {
                assert(ring@.to_set() =~= rs);
                ring@.unique_seq_to_set();
                assert(level_map(before, level as int) == level_map(old(self)@, level as int));
            }
            let update = self.update_level(level, &ring);
            let ghost plan_before = plan@;
            plan.push(update);
            proof {
                assert forall|l: int| level + 1 <= l < self@.len() implies #[trigger] self@[l] == level_map(old(self)@, l) by {
                    assert(self@[l] == level_map(before, l));
                }
                assert forall|l: int|
                    0 <= l < level + 1 implies level_update_holds(
                        level_map(old(self)@, l),
                        ring_set(camera, config.ring_size as int, l as nat),
                        #[trigger] self@[l],
                        plan@[l].moves@,
                        plan@[l].spawn@,
                        plan@[l].despawn@,
                    ) by {
                    if l < level {
                        assert(self@[l] == level_map(before, l));
                        assert(plan@[l] == plan_before[l]);
                    }
                }
                assert forall|l: int|
                    0 <= l < level + 1 && level_map(old(self)@, l).len() == ring_set(
                        camera,
                        config.ring_size as int,
                        l as nat,
                    ).len() implies (#[trigger] plan@[l]).spawn@.len() == 0 && plan@[l].despawn@.len() == 0 by {
                    if l < level {
                        assert(plan@[l] == plan_before[l]);
                    }
                }
            }
            level = level + 1;
        }
        proof {
            assert forall|l: int| config.levels <= l < self@.len() implies #[trigger] self@[l] == old(self)@[l] by {
                assert(self@[l] == level_map(old(self)@, l));
            }
        }
        plan
    }
}

/// The chunks that left a level's ring, with their entities, and the
/// ring's chunks that the level lacked.
struct RingSplit {
    entering: Vec<GridPos>,
    leaving: Vec<ChunkSlot>,
}

/// The live chunks of every level of the clipmap: for each level, the
/// entity that renders each of its chunks.
pub struct Clipmap {
    levels: ChunkLevels,
}

impl Clipmap {
    /// Within each level, no chunk coordinate has two entities.
    #[verifier::type_invariant]
    spec fn levels_wf(self) -> bool {
        self.levels.wf()
    }

    /// For each level seen so far, the map from chunk coordinate to entity.
    pub closed spec fn view(&self) -> Seq<Map<GridPos, u64>> {
        self.levels@
    }

    /// An empty clipmap: no level and no chunk.
    pub fn new() -> (c: Clipmap)
        ensures
            c@ == Seq::<Map<GridPos, u64>>::empty(),
    {
        Clipmap { levels: ChunkLevels::new() }
    }

    /// Number of levels the clipmap has entries for.
    pub fn level_count(&self) -> (n: usize)
        ensures
            n == self@.len(),
    {
        self.levels.level_count()
    }

    /// The entity of the chunk at `pos` in `level`, if that chunk is live.
    pub fn entity_at(&self, level: u32, pos: GridPos) -> (e: Option<u64>)
        ensures
            e == (if level_map(self@, level as int).dom().contains(pos) {
                Some(level_map(self@, level as int)[pos])
            } else {
                None::<u64>
            }),
    {
        proof {
            use_type_invariant(self);
        }
        self.levels.entity_at(level, pos)
    }

    /// Moves `level` to the ring `ring` (each of its chunks listed once),
    /// reusing the entities of chunks that left the ring for chunks that
    /// entered it; see `level_update_holds`. When the level held as many
    /// chunks as the ring has, every entity is reused and nothing is
    /// spawned or despawned. The level gets an entry if it had none.
    pub fn update_level(&mut self, level: u32, ring: &Vec<GridPos>) -> (update: LevelUpdate)
        requires
            ring@.no_duplicates(),
        ensures
            final(self)@.len() == (if (level as int) < old(self)@.len() {
                old(self)@.len() as int
            } else {
                level as int + 1
            }),
            forall|l: int|
                0 <= l < final(self)@.len() && l != level ==> final(self)@[l] == level_map(old(self)@, l),
            level_update_holds(
                level_map(old(self)@, level as int),
                ring@.to_set(),
                final(self)@[level as int],
                update.moves@,
                update.spawn@,
                update.despawn@,
            ),
            level_map(old(self)@, level as int).len() == ring@.len() ==> update.spawn@.len() == 0
                && update.despawn@.len() == 0,
    {
        let mut levels = self.take_levels();
        let update = levels.update_level(level, ring);
        self.levels = levels;
        update
    }

    /// Moves every level `0..config.levels` to its ring around the camera
    /// cell, each as `update_level` does; `plan[l]` is the plan of level
    /// `l`. Levels at or above `config.levels` are left as they were.
    pub fn update_rings(&mut self, config: &ClipmapConfig, camera: GridPos) -> (plan: Vec<LevelUpdate>)
        ensures
            plan@.len() == config.levels,
            final(self)@.len() == (if (config.levels as int) <= old(self)@.len() {
                old(self)@.len() as int
            } else {
                config.levels as int
            }),
            forall|l: int|
                0 <= l < config.levels ==> level_update_holds(
                    level_map(old(self)@, l),
                    ring_set(camera, config.ring_size as int, l as nat),
                    #[trigger] final(self)@[l],
                    plan@[l].moves@,
                    plan@[l].spawn@,
                    plan@[l].despawn@,
                ),
            forall|l: int|
                0 <= l < config.levels && level_map(old(self)@, l).len() == ring_set(
                    camera,
                    config.ring_size as int,
                    l as nat,
                ).len() ==> (#[trigger] plan@[l]).spawn@.len() == 0 && plan@[l].despawn@.len() == 0,
            forall|l: int| config.levels <= l < final(self)@.len() ==> #[trigger] final(self)@[l] == old(self)@[l],
    {
        let mut levels = self.take_levels();
        let plan = levels.update_rings(config, camera);
        self.levels = levels;
        plan
    }

    /// Records that the chunk at `pos` of `level` is rendered by `entity`
    /// (replacing any entity recorded there before).
    pub fn insert_chunk(&mut self, level: u32, pos: GridPos, entity: u64)
        ensures
            final(self)@.len() == (if (level as int) < old(self)@.len() {
                old(self)@.len() as int
            } else {
                level as int + 1
            }),
            forall|l: int|
                0 <= l < final(self)@.len() && l != level ==> final(self)@[l] == level_map(old(self)@, l),
            final(self)@[level as int] == level_map(old(self)@, level as int).insert(pos, entity),
    {
        let mut levels = self.take_levels();
        levels.insert_chunk(level, pos, entity);
        self.levels = levels;
    }

    /// Records the entities of freshly spawned chunks of `level`, one slot
    /// after the other.
    pub fn insert_chunks(&mut self, level: u32, spawned: &Vec<ChunkSlot>)
        ensures
            final(self)@.len() == (if (level as int) < old(self)@.len() {
                old(self)@.len() as int
            } else {
                level as int + 1
            }),
            forall|l: int|
                0 <= l < final(self)@.len() && l != level ==> final(self)@[l] == level_map(old(self)@, l),
            final(self)@[level as int] == level_map(old(self)@, level as int).union_prefer_right(
                slots_map(spawned@),
            ),
    {
        let mut levels = self.take_levels();
        levels.insert_chunks(level, spawned);
        self.levels = levels;
    }

    /// Takes the levels out, leaving an empty clipmap behind.
    fn take_levels(&mut self) -> (levels: ChunkLevels)
        ensures
            levels.wf(),
            levels@ == old(self)@,
            final(self)@ == Seq::<Map<GridPos, u64>>::empty(),
    {
        proof {
            use_type_invariant(&*self);
        }
        let mut levels = ChunkLevels::new();
        std::mem::swap(&mut levels, &mut self.levels);
        levels
    }
}

impl Default for Clipmap {
    fn default() -> (c: Self)
        ensures
            c@ == Seq::<Map<GridPos, u64>>::empty(),
    {
        Clipmap::new()
    }
}

/// What a sequence holds after a push: what it held, and the new element.
proof fn lemma_push_contains<T>(s: Seq<T>, x: T)
    ensures
        forall|y: T| s.push(x).contains(y) <==> (s.contains(y) || y == x),
{
    let t = s.push(x);
    assert forall|y: T| t.contains(y) <==> (s.contains(y) || y == x) by {
        if t.contains(y) {
            let k = choose|k: int| 0 <= k < t.len() && t[k] == y;
            if k < s.len() {
                assert(s[k] == y);
            }
        }
        if s.contains(y) {
            let k = choose|k: int| 0 <= k < s.len() && s[k] == y;
            assert(t[k] == y);
        }
        if y == x {
            assert(t[s.len() as int] == y);
        }
    }
}

/// Pushing an element that a duplicate-free sequence lacks keeps it free of
/// duplicates.
proof fn lemma_push_fresh<T>(s: Seq<T>, x: T)
    requires
        s.no_duplicates(),
        !s.contains(x),
    ensures
        s.push(x).no_duplicates(),
        forall|y: T| s.push(x).contains(y) <==> (s.contains(y) || y == x),
{
    lemma_push_contains(s, x);
    let t = s.push(x);
    assert forall|i: int, j: int| 0 <= i < t.len() && 0 <= j < t.len() && i != j implies t[i] != t[j] by {
        if i == s.len() {
            assert(s.contains(t[j]));
        } else if j == s.len() {
            assert(s.contains(t[i]));
        } else {
            assert(s[i] == t[i] && s[j] == t[j]);
        }
    }
}

proof fn lemma_push_fresh_position(s: Seq<ChunkSlot>, x: ChunkSlot)
    requires
        distinct_positions(s),
        !has_position(s, x.pos),
    ensures
        distinct_positions(s.push(x)),
        forall|p: GridPos| has_position(s.push(x), p) <==> (has_position(s, p) || p == x.pos),
        forall|y: ChunkSlot| s.push(x).contains(y) <==> (s.contains(y) || y == x),
{
    let t = s.push(x);
    assert forall|i: int, j: int| 0 <= i < t.len() && 0 <= j < t.len() && i != j implies t[i].pos != t[j].pos by {
        if i == s.len() {
            assert(has_position(s, t[j].pos));
        } else if j == s.len() {
            assert(has_position(s, t[i].pos));
        }
    }
    assert forall|p: GridPos| has_position(t, p) <==> (has_position(s, p) || p == x.pos) by {
        if has_position(t, p) {
            let k = choose|k: int| 0 <= k < t.len() && t[k].pos == p;
            if k < s.len() {
                assert(s[k].pos == p);
            }
        }
        if has_position(s, p) {
            let k = choose|k: int| 0 <= k < s.len() && s[k].pos == p;
            assert(t[k].pos == p);
        }
        if p == x.pos {
            assert(t[s.len() as int].pos == p);
        }
    }
    lemma_push_contains(s, x);
}

/// Slots taken from a larger list with distinct positions map each of
/// their positions to the same entity as the larger list.
proof fn lemma_sub_slots(a: Seq<ChunkSlot>, b: Seq<ChunkSlot>)
    requires
        distinct_positions(a),
        distinct_positions(b),
        forall|j: int| 0 <= j < a.len() ==> b.contains(#[trigger] a[j]),
    ensures
        forall|p: GridPos|
            #[trigger] slots_map(a).dom().contains(p) ==> slots_map(b).dom().contains(p)
                && slots_map(a)[p] == slots_map(b)[p],
{
    lemma_slots_map(a);
    lemma_slots_map(b);
    assert forall|p: GridPos| #[trigger] slots_map(a).dom().contains(p) implies slots_map(b).dom().contains(p)
        && slots_map(a)[p] == slots_map(b)[p] by {
        let j = choose|j: int| 0 <= j < a.len() && a[j].pos == p;
        assert(b.contains(a[j]));
        let k = choose|k: int| 0 <= k < b.len() && b[k] == a[j];
        assert(slots_map(a)[a[j].pos] == a[j].entity);
        assert(slots_map(b)[b[k].pos] == b[k].entity);
    }
}

/// Whether `ring` holds `p`.
fn contains_pos(ring: &Vec<GridPos>, p: GridPos) -> (b: bool)
    ensures
        b == ring@.contains(p),
{
    let mut i: usize = 0;
    while i < ring.len()
        invariant
            0 <= i <= ring.len(),
            forall|j: int| 0 <= j < i ==> ring@[j] != p,
        decreases ring.len() - i,
    {
        if ring[i] == p {
            assert(ring@[i as int] == p);
            return true;
        }
        i = i + 1;
    }
    false
}

/// The index of the slot of `slots` at `p`, if there is one.
fn find_slot(slots: &Vec<ChunkSlot>, p: GridPos) -> (r: Option<usize>)
    ensures
        match r {
            Some(i) => i < slots@.len() && slots@[i as int].pos == p,
            None => !has_position(slots@, p),
        },
{
    let mut i: usize = 0;
    while i < slots.len()
        invariant
            0 <= i <= slots.len(),
            forall|j: int| 0 <= j < i ==> slots@[j].pos != p,
        decreases slots.len() - i,
    {
        if slots[i].pos == p {
            return Some(i);
        }
        i = i + 1;
    }
    None
}

/// Whether some slot of `slots` is at `p`.
fn has_slot_at(slots: &Vec<ChunkSlot>, p: GridPos) -> (b: bool)
    ensures
        b == has_position(slots@, p),
{
    let mut i: usize = 0;
    while i < slots.len()
        invariant
            0 <= i <= slots.len(),
            forall|j: int| 0 <= j < i ==> slots@[j].pos != p,
        decreases slots.len() - i,
    {
        if slots[i].pos == p {
            assert(slots@[i as int].pos == p);
            return true;
        }
        i = i + 1;
    }
    false
}


/// The camera's chunk at `level` holds the camera: the chunk spans
/// `[c * w, (c + 1) * w)` on each axis, for `w` the chunk width.
pub proof fn law_camera_in_its_chunk(cell: int, level: nat)
    ensures
        chunk_coord(cell, level) * chunk_world_size(level) <= cell,
        cell < (chunk_coord(cell, level) + 1) * chunk_world_size(level),
{
    let w = chunk_world_size(level);
    lemma_chunk_world_size_min(level);
    lemma_fundamental_div_mod(cell, w);
    let q = cell / w;
    let r = cell % w;
    assert(q * w <= cell && cell < (q + 1) * w) by (nonlinear_arith)
        requires
            cell == w * q + r,
            0 <= r < w,
    ;
}

/// The chunks of consecutive levels nest: the chunk coordinate at `level`
/// is the chunk coordinate at `level - 1` halved (rounding down).
pub proof fn law_chunk_coords_nest(cell: int, level: nat)
    requires
        level > 0,
    ensures
        chunk_coord(cell, level) == chunk_coord(cell, (level - 1) as nat) / 2,
{
    let pw = chunk_world_size((level - 1) as nat);
    law_chunk_world_size_doubles(level);
    lemma_fundamental_div_mod(cell, pw);
    let q1 = cell / pw;
    let r1 = cell % pw;
    lemma_fundamental_div_mod(q1, 2);
    let q2 = q1 / 2;
    let r2 = q1 % 2;
    assert(cell == q2 * (2 * pw) + (r2 * pw + r1)) by (nonlinear_arith)
        requires
            cell == pw * q1 + r1,
            q1 == 2 * q2 + r2,
    ;
    assert(0 <= r2 * pw + r1 < 2 * pw) by (nonlinear_arith)
        requires
            0 <= r1 < pw,
            0 <= r2 < 2,
    ;
    lemma_fundamental_div_mod_converse(cell, 2 * pw, q2, r2 * pw + r1);
}

/// The finest ring holds the chunk the camera is in, once the ring is at
/// least 2 chunks wide.
pub proof fn law_finest_ring_holds_camera_chunk(camera: GridPos, ring_size: int)
    requires
        half_ring(ring_size) >= 1,
    ensures
        ({
            let c = GridPos {
                x: chunk_coord(camera.x as int, 0) as i32,
                y: chunk_coord(camera.y as int, 0) as i32,
                z: chunk_coord(camera.z as int, 0) as i32,
            };
            is_ring_chunk(camera, ring_size, 0, c)
        }),
{
    lemma_chunk_world_size_min(0);
    assert(chunk_world_size(0) == 32) by {
        vstd::arithmetic::power2::lemma2_to64();
    }
    let ax = camera.x as int;
    let ay = camera.y as int;
    let az = camera.z as int;
    assert(-67108864 <= ax / 32 < 67108864);
    assert(-67108864 <= ay / 32 < 67108864);
    assert(-67108864 <= az / 32 < 67108864);
}

/// On the horizontal axes the rings nest: the world span covered by the
/// ring at `level - 1` lies within the span of the ring at `level`
/// (for a ring at least 2 chunks wide).
pub proof fn law_rings_nest(cam: int, ring_size: int, level: nat)
    requires
        level > 0,
        half_ring(ring_size) >= 1,
    ensures
        ({
            let h = half_ring(ring_size);
            let c = chunk_coord(cam, level);
            let pc = chunk_coord(cam, (level - 1) as nat);
            let w = chunk_world_size(level);
            let pw = chunk_world_size((level - 1) as nat);
            (c - h) * w <= (pc - h) * pw && (pc + h) * pw <= (c + h) * w
        }),
{
    let h = half_ring(ring_size);
    let c = chunk_coord(cam, level);
    let pc = chunk_coord(cam, (level - 1) as nat);
    let w = chunk_world_size(level);
    let pw = chunk_world_size((level - 1) as nat);
    law_chunk_coords_nest(cam, level);
    law_chunk_world_size_doubles(level);
    lemma_fundamental_div_mod(pc, 2);
    assert(2 * c <= pc <= 2 * c + 1);
    assert((c - h) * w <= (pc - h) * pw) by (nonlinear_arith)
        requires
            w == 2 * pw,
            pw > 0,
            2 * c <= pc,
            h >= 1,
    ;
    assert((pc + h) * pw <= (c + h) * w) by (nonlinear_arith)
        requires
            w == 2 * pw,
            pw > 0,
            pc <= 2 * c + 1,
            h >= 1,
    ;
}

/// The world spans of chunk `p` at level `lp` and chunk `q` at level
/// `lq` do not overlap on one axis: one ends where or before the other
/// starts (their open spans are disjoint).
pub open spec fn spans_apart(p: int, lp: nat, q: int, lq: nat) -> bool {
    (p + 1) * chunk_world_size(lp) <= q * chunk_world_size(lq)
        || (q + 1) * chunk_world_size(lq) <= p * chunk_world_size(lp)
}

/// The boxes of chunk `p` at level `lp` and chunk `q` at level `lq` have
/// no interior point in common.
pub open spec fn boxes_apart(p: GridPos, lp: nat, q: GridPos, lq: nat) -> bool {
    ||| spans_apart(p.x as int, lp, q.x as int, lq)
    ||| spans_apart(p.y as int, lp, q.y as int, lq)
    ||| spans_apart(p.z as int, lp, q.z as int, lq)
}

proof fn lemma_axis_apart(cam: int, half: int, level: nat, pc_chunk: int, q: int)
    requires
        level > 0,
        !axis_meets_finer_ring(cam, half, level, pc_chunk),
        chunk_coord(cam, (level - 1) as nat) - half <= q < chunk_coord(cam, (level - 1) as nat) + half,
    ensures
        spans_apart(pc_chunk, level, q, (level - 1) as nat),
{
    law_chunk_world_size_doubles(level);
    let w = chunk_world_size(level);
    let pw = chunk_world_size((level - 1) as nat);
    let pc = chunk_coord(cam, (level - 1) as nat);
    let c = pc_chunk;
    assert(c * w >= (pc + half) * pw || (c + 1) * w <= (pc - half) * pw);
    assert((pc + half) * pw >= (q + 1) * pw) by (nonlinear_arith)
        requires
            q + 1 <= pc + half,
            pw > 0,
    ;
    assert((pc - half) * pw <= q * pw) by (nonlinear_arith)
        requires
            pc - half <= q,
            pw > 0,
    ;
}

/// Hole carving: levels do not overlap. A chunk of the ring at a level
/// above the finest and a chunk of the next finer ring never share an
/// interior point.
pub proof fn law_levels_do_not_overlap(camera: GridPos, ring_size: int, level: nat, p: GridPos, q: GridPos)
    requires
        level > 0,
        is_ring_chunk(camera, ring_size, level, p),
        is_ring_chunk(camera, ring_size, (level - 1) as nat, q),
    ensures
        boxes_apart(p, level, q, (level - 1) as nat),
{
    let h = half_ring(ring_size);
    if !axis_meets_finer_ring(camera.x as int, h, level, p.x as int) {
        lemma_axis_apart(camera.x as int, h, level, p.x as int, q.x as int);
    } else if !axis_meets_finer_ring(camera.y as int, 2, level, p.y as int) {
        lemma_axis_apart(camera.y as int, 2, level, p.y as int, q.y as int);
    } else {
        lemma_axis_apart(camera.z as int, h, level, p.z as int, q.z as int);
    }
}

/// Moving a world coordinate by `a` chunks of `level` moves its chunk at
/// `level` by `a` and its chunk at `level - 1` by `2 * a`.
proof fn lemma_chunk_coord_shift(cell: int, a: int, level: nat)
    ensures
        chunk_coord(cell + a * chunk_world_size(level), level) == chunk_coord(cell, level) + a,
        level > 0 ==> chunk_coord(cell + a * chunk_world_size(level), (level - 1) as nat) == chunk_coord(
            cell,
            (level - 1) as nat,
        ) + 2 * a,
{
    lemma_chunk_world_size_min(level);
    let w = chunk_world_size(level);
    lemma_hoist_over_denominator(cell, a, w as nat);
    if level > 0 {
        law_chunk_world_size_doubles(level);
        let pw = chunk_world_size((level - 1) as nat);
        assert(a * w == (2 * a) * pw) by (nonlinear_arith)
            requires
                w == 2 * pw,
        ;
        lemma_hoist_over_denominator(cell, 2 * a, pw as nat);
    }
}

/// The rings move with the camera, axis by axis: moving the camera by
/// whole chunks of `level` (`a`, `b`, `c` of them along x, y, z) moves the
/// ring at `level`, its carved hole included, by the same numbers of
/// chunks along the same axes and changes nothing else.
pub proof fn law_ring_moves_with_camera(
    ring_size: int,
    level: nat,
    camera: GridPos,
    moved: GridPos,
    a: int,
    b: int,
    c: int,
    p: GridPos,
    q: GridPos,
)
    requires
        moved.x == camera.x + a * chunk_world_size(level),
        moved.y == camera.y + b * chunk_world_size(level),
        moved.z == camera.z + c * chunk_world_size(level),
        q.x == p.x + a,
        q.y == p.y + b,
        q.z == p.z + c,
    ensures
        is_ring_chunk(moved, ring_size, level, q) <==> is_ring_chunk(camera, ring_size, level, p),
{
    let h = half_ring(ring_size);
    lemma_chunk_coord_shift(camera.x as int, a, level);
    lemma_chunk_coord_shift(camera.y as int, b, level);
    lemma_chunk_coord_shift(camera.z as int, c, level);
    if level > 0 {
        lemma_axis_meets_finer_ring(camera.x as int, h, level, p.x as int);
        lemma_axis_meets_finer_ring(camera.y as int, 2, level, p.y as int);
        lemma_axis_meets_finer_ring(camera.z as int, h, level, p.z as int);
        lemma_axis_meets_finer_ring(moved.x as int, h, level, q.x as int);
        lemma_axis_meets_finer_ring(moved.y as int, 2, level, q.y as int);
        lemma_axis_meets_finer_ring(moved.z as int, h, level, q.z as int);
        lemma_axis_within_finer_ring(camera.x as int, h, level, p.x as int);
        lemma_axis_within_finer_ring(camera.y as int, h, level, p.y as int);
        lemma_axis_within_finer_ring(camera.z as int, h, level, p.z as int);
        lemma_axis_within_finer_ring(moved.x as int, h, level, q.x as int);
        lemma_axis_within_finer_ring(moved.y as int, h, level, q.y as int);
        lemma_axis_within_finer_ring(moved.z as int, h, level, q.z as int);
    }
}

/// Moving a level to a new ring and then recording the entities spawned
/// for the chunks the plan lists as `spawn` leaves the level holding
/// exactly the ring's chunks, and every chunk that stayed in the ring keeps
/// its entity.
pub proof fn law_update_then_spawn_tracks_ring(
    before: Map<GridPos, u64>,
    ring: Set<GridPos>,
    after: Map<GridPos, u64>,
    moves: Seq<ChunkMove>,
    spawn: Seq<GridPos>,
    despawn: Seq<ChunkSlot>,
    spawned: Seq<ChunkSlot>,
)
    requires
        level_update_holds(before, ring, after, moves, spawn, despawn),
        distinct_positions(spawned),
        forall|p: GridPos| has_position(spawned, p) <==> spawn.contains(p),
    ensures
        after.union_prefer_right(slots_map(spawned)).dom() == ring,
        forall|p: GridPos|
            ring.contains(p) && before.dom().contains(p) ==> after.union_prefer_right(slots_map(spawned))[p]
                == before[p],
{
    let mt = moved_to(moves);
    lemma_slots_map(mt);
    lemma_slots_map(spawned);
    let result = after.union_prefer_right(slots_map(spawned));
    assert forall|p: GridPos| result.dom().contains(p) <==> ring.contains(p) by {
        if ring.contains(p) && !before.dom().contains(p) {
            assert(has_position(mt, p) || spawn.contains(p));
        }
        if has_position(mt, p) {
            assert(ring.contains(p));
        }
        if spawn.contains(p) {
            assert(ring.contains(p));
        }
    }
    assert(result.dom() =~= ring);
    assert forall|p: GridPos| ring.contains(p) && before.dom().contains(p) implies result[p] == before[p] by {
        assert(!has_position(mt, p));
        assert(!spawn.contains(p));
    }
}

/// Toroidal reuse: when as many chunks enter a level's ring as leave it,
/// so that the plan spawns and despawns nothing, the level afterwards
/// holds exactly the ring's chunks, and the same entities as before, each
/// one at a chunk of the new ring.
pub proof fn law_shift_reuses_every_entity(
    before: Map<GridPos, u64>,
    ring: Set<GridPos>,
    after: Map<GridPos, u64>,
    moves: Seq<ChunkMove>,
    spawn: Seq<GridPos>,
    despawn: Seq<ChunkSlot>,
)
    requires
        level_update_holds(before, ring, after, moves, spawn, despawn),
        spawn.len() == 0,
        despawn.len() == 0,
    ensures
        after.dom() == ring,
        after.values() == before.values(),
{
    let mf = moved_from(moves);
    let mt = moved_to(moves);
    lemma_slots_map(mf);
    lemma_slots_map(mt);
    lemma_slots_map(despawn);
    assert(slots_map(despawn) =~= Map::<GridPos, u64>::empty());
    assert(slots_map(mf) =~= before.remove_keys(ring)) by {
        assert(slots_map(mf).union_prefer_right(slots_map(despawn)) =~= slots_map(mf));
    }
    assert forall|p: GridPos| after.dom().contains(p) <==> ring.contains(p) by {
        if ring.contains(p) && !before.dom().contains(p) {
            assert(has_position(mt, p) || spawn.contains(p));
        }
    }
    assert(after.dom() =~= ring);
    assert forall|e: u64| after.values().contains(e) <==> before.values().contains(e) by {
        if before.values().contains(e) {
            let p = choose|p: GridPos| before.dom().contains(p) && before[p] == e;
            if ring.contains(p) {
                assert(!has_position(mt, p));
                assert(after[p] == e);
                assert(after.contains_value(e));
            } else {
                assert(slots_map(mf).dom().contains(p));
                let i = choose|i: int| 0 <= i < mf.len() && mf[i].pos == p;
                assert(slots_map(mf)[mf[i].pos] == mf[i].entity);
                assert(mf[i].entity == moves[i].entity);
                assert(mt[i].entity == moves[i].entity);
                assert(slots_map(mt)[mt[i].pos] == mt[i].entity);
                assert(after[mt[i].pos] == e);
                assert(after.dom().contains(mt[i].pos));
                assert(after.contains_value(e));
            }
        }
        if after.values().contains(e) {
            let q = choose|q: GridPos| after.dom().contains(q) && after[q] == e;
            if has_position(mt, q) {
                let i = choose|i: int| 0 <= i < mt.len() && mt[i].pos == q;
                assert(slots_map(mt)[mt[i].pos] == mt[i].entity);
                assert(mf[i].entity == moves[i].entity);
                assert(slots_map(mf)[mf[i].pos] == mf[i].entity);
                assert(has_position(mf, mf[i].pos));
                assert(slots_map(mf).dom().contains(mf[i].pos));
                assert(before.remove_keys(ring).dom().contains(mf[i].pos));
                assert(before[mf[i].pos] == e);
                assert(before.dom().contains(mf[i].pos));
                assert(before.contains_value(e));
            } else {
                assert(before[q] == e);
                assert(before.contains_value(e));
            }
        }
    }
    assert(after.values() =~= before.values());
}

/// A level that already holds exactly its ring stays as it is: updating
/// it to the same ring moves, spawns and removes nothing.
pub proof fn law_update_at_rest(
    before: Map<GridPos, u64>,
    ring: Set<GridPos>,
    after: Map<GridPos, u64>,
    moves: Seq<ChunkMove>,
    spawn: Seq<GridPos>,
    despawn: Seq<ChunkSlot>,
)
    requires
        level_update_holds(before, ring, after, moves, spawn, despawn),
        before.dom() == ring,
    ensures
        after == before,
        moves.len() == 0,
        spawn.len() == 0,
        despawn.len() == 0,
{
    let mf = moved_from(moves);
    let mt = moved_to(moves);
    lemma_slots_map(mf);
    lemma_slots_map(mt);
    lemma_slots_map(despawn);
    assert(before.remove_keys(ring) =~= Map::<GridPos, u64>::empty());
    if moves.len() > 0 {
        assert(has_position(mf, mf[0].pos));
        assert(slots_map(mf).union_prefer_right(slots_map(despawn)).dom().contains(mf[0].pos));
    }
    if despawn.len() > 0 {
        assert(has_position(despawn, despawn[0].pos));
        assert(slots_map(mf).union_prefer_right(slots_map(despawn)).dom().contains(despawn[0].pos));
    }
    if spawn.len() > 0 {
        assert(spawn.contains(spawn[0]));
    }
    assert(mt =~= Seq::<ChunkSlot>::empty());
    assert(slots_map(mt) =~= Map::<GridPos, u64>::empty());
    assert(after =~= before);
}

} // verus!
