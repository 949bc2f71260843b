use voxel_clipmap::chunk::{column_coords, generate_terrain, Chunk, Voxel};
use voxel_clipmap::grid::{GridPos, CHUNK_SIZE, CHUNK_VOLUME};
use voxel_clipmap::mesh::{generate_chunk_geometry, pack_voxel_vertex};

fn unpack(v: u32) -> (u32, u32, u32, u32, u32) {
    (v & 0x3F, (v >> 6) & 0x3F, (v >> 12) & 0x3F, (v >> 18) & 0x7, (v >> 21) & 0x7FF)
}

fn chunk_with(solid: &[(usize, usize, usize, u16)]) -> Chunk {
    let mut c = Chunk::new(GridPos::new(0, 0, 0), 0);
    for &(x, y, z, id) in solid {
        c.voxels[Chunk::get_index(x, y, z)] = Voxel { id };
    }
    c
}

#[test]
fn new_chunk_is_air() {
    let c = Chunk::new(GridPos::new(3, -4, 5), 2);
    assert_eq!(c.voxels.len(), CHUNK_VOLUME);
    assert_eq!(c.position, GridPos::new(3, -4, 5));
    assert_eq!(c.level, 2);
    assert!(c.voxels.iter().all(|v| v.id == 0));
    assert_eq!(Voxel::default().id, 0);
}

#[test]
fn voxel_index_layout() {
    assert_eq!(Chunk::get_index(0, 0, 0), 0);
    assert_eq!(Chunk::get_index(1, 2, 3), 1 + 2 * 32 + 3 * 1024);
    assert_eq!(Chunk::get_index(31, 31, 31), CHUNK_VOLUME - 1);
    let mut seen = vec![false; CHUNK_VOLUME];
    for x in 0..CHUNK_SIZE {
        for y in 0..CHUNK_SIZE {
            for z in 0..CHUNK_SIZE {
                let i = Chunk::get_index(x, y, z);
                assert!(!seen[i]);
                seen[i] = true;
                assert_eq!((i % 32, (i / 32) % 32, i / 1024), (x, y, z));
            }
        }
    }
}

#[test]
fn terrain_fills_below_the_height() {
    let heights = vec![16i64; 1024];
    let c = generate_terrain(GridPos::new(0, 0, 0), 0, &heights);
    for x in 0..32 {
        for y in 0..32 {
            for z in 0..32 {
                let expected = if y < 16 { 1 } else { 0 };
                assert_eq!(c.voxels[Chunk::get_index(x, y, z)].id, expected);
            }
        }
    }
}

#[test]
fn terrain_uses_each_column_height() {
    let mut heights = vec![0i64; 1024];
    heights[3 + 5 * 32] = 10; // column x = 3, z = 5
    heights[7] = 1; // column x = 7, z = 0
    let c = generate_terrain(GridPos::new(0, 0, 0), 0, &heights);
    assert_eq!(c.voxels[Chunk::get_index(3, 9, 5)].id, 1);
    assert_eq!(c.voxels[Chunk::get_index(3, 10, 5)].id, 0);
    assert_eq!(c.voxels[Chunk::get_index(5, 0, 3)].id, 0);
    assert_eq!(c.voxels[Chunk::get_index(7, 0, 0)].id, 1);
    assert_eq!(c.voxels[Chunk::get_index(7, 1, 0)].id, 0);
    let solid = c.voxels.iter().filter(|v| v.id == 1).count();
    assert_eq!(solid, 11);
}

#[test]
fn terrain_scales_with_level_and_chunk_height() {
    let heights = vec![0i64; 1024];
    // chunk y = -1 at level 1: world y = (-32 + y) * 2 < 0 for every row
    let c = generate_terrain(GridPos::new(0, -1, 0), 1, &heights);
    assert!(c.voxels.iter().all(|v| v.id == 1));
    // level 2, chunk y = 0, height 9: rows with 4 * y < 9 are solid, y <= 2
    let c = generate_terrain(GridPos::new(0, 0, 0), 2, &vec![9i64; 1024]);
    assert_eq!(c.voxels[Chunk::get_index(0, 2, 0)].id, 1);
    assert_eq!(c.voxels[Chunk::get_index(0, 3, 0)].id, 0);
    assert_eq!(c.level, 2);
    assert_eq!(c.position, GridPos::new(0, 0, 0));
}

#[test]
fn terrain_at_huge_levels() {
    let c = generate_terrain(GridPos::new(0, 0, 0), 100, &vec![1i64; 1024]);
    // only row 0 sits at world height 0; every other row is beyond any i64
    assert_eq!(c.voxels[Chunk::get_index(4, 0, 4)].id, 1);
    assert_eq!(c.voxels[Chunk::get_index(4, 1, 4)].id, 0);
    let c = generate_terrain(GridPos::new(0, -1, 0), 70, &vec![i64::MIN; 1024]);
    assert!(c.voxels.iter().all(|v| v.id == 1));
    let c = generate_terrain(GridPos::new(0, 1, 0), 63, &vec![i64::MAX; 1024]);
    assert!(c.voxels.iter().all(|v| v.id == 0));
}

#[test]
fn packing_layout() {
    assert_eq!(pack_voxel_vertex(0, 0, 0, 0, 0), 0);
    assert_eq!(pack_voxel_vertex(63, 63, 63, 7, 2047), 0xFFFF_FFFF);
    assert_eq!(pack_voxel_vertex(1, 0, 0, 0, 0), 1);
    assert_eq!(pack_voxel_vertex(0, 1, 0, 0, 0), 1 << 6);
    assert_eq!(pack_voxel_vertex(0, 0, 1, 0, 0), 1 << 12);
    assert_eq!(pack_voxel_vertex(0, 0, 0, 1, 0), 1 << 18);
    assert_eq!(pack_voxel_vertex(0, 0, 0, 0, 1), 1 << 21);
    // fields wider than their bits are cut
    assert_eq!(pack_voxel_vertex(64, 0, 0, 8, 2048), 0);
    for &(x, y, z, n, m) in &[(5u32, 6u32, 7u32, 3u32, 1000u16), (32, 0, 31, 5, 1), (0, 32, 32, 2, 2047)] {
        assert_eq!(unpack(pack_voxel_vertex(x, y, z, n, m)), (x, y, z, n, m as u32));
    }
}

#[test]
fn empty_chunk_has_no_geometry() {
    let g = generate_chunk_geometry(&Chunk::new(GridPos::new(0, 0, 0), 0));
    assert!(g.packed_vertices.is_empty());
    assert!(g.indices.is_empty());
}

#[test]
fn lone_voxel_has_six_faces() {
    let g = generate_chunk_geometry(&chunk_with(&[(5, 5, 5, 3)]));
    assert_eq!(g.packed_vertices.len(), 24);
    assert_eq!(g.indices.len(), 36);
    // the up face comes first, counter-clockwise from outside
    let up: Vec<_> = g.packed_vertices[0..4].iter().map(|&v| unpack(v)).collect();
    assert_eq!(up, vec![(5, 6, 6, 0, 3), (6, 6, 6, 0, 3), (6, 6, 5, 0, 3), (5, 6, 5, 0, 3)]);
    // then down, east, west, north, south
    let normals: Vec<u32> = g.packed_vertices.iter().map(|&v| unpack(v).3).collect();
    assert_eq!(normals, vec![0, 0, 0, 0, 1, 1, 1, 1, 2, 2, 2, 2, 3, 3, 3, 3, 4, 4, 4, 4, 5, 5, 5, 5]);
    assert_eq!(&g.indices[0..12], &[0, 1, 2, 0, 2, 3, 4, 5, 6, 4, 6, 7]);
    assert_eq!(&g.indices[30..36], &[20, 21, 22, 20, 22, 23]);
    let south: Vec<_> = g.packed_vertices[20..24].iter().map(|&v| unpack(v)).collect();
    assert_eq!(south, vec![(6, 5, 5, 5, 3), (5, 5, 5, 5, 3), (5, 6, 5, 5, 3), (6, 6, 5, 5, 3)]);
}

#[test]
fn shared_faces_are_culled() {
    let g = generate_chunk_geometry(&chunk_with(&[(5, 5, 5, 1), (6, 5, 5, 2)]));
    assert_eq!(g.packed_vertices.len(), 10 * 4);
    assert_eq!(g.indices.len(), 10 * 6);
    // the first voxel (x = 5) is meshed first and has no east face
    let normals: Vec<u32> = g.packed_vertices[0..20].iter().step_by(4).map(|&v| unpack(v).3).collect();
    assert_eq!(normals, vec![0, 1, 3, 4, 5]);
    assert!(g.packed_vertices[0..20].iter().all(|&v| unpack(v).4 == 1));
    assert!(g.packed_vertices[20..40].iter().all(|&v| unpack(v).4 == 2));
}

#[test]
fn faces_at_the_chunk_border_are_kept() {
    let g = generate_chunk_geometry(&chunk_with(&[(0, 0, 0, 1)]));
    assert_eq!(g.packed_vertices.len(), 24);
    let g = generate_chunk_geometry(&chunk_with(&[(31, 31, 31, 1)]));
    assert_eq!(g.packed_vertices.len(), 24);
    assert!(g.packed_vertices.iter().all(|&v| {
        let (x, y, z, _, _) = unpack(v);
        x <= 32 && y <= 32 && z <= 32
    }));
}

#[test]
fn vertex_materials_come_from_their_voxels() {
    let solid = [(2usize, 3usize, 4usize, 7u16), (10, 0, 31, 2049), (20, 20, 20, 1500)];
    let g = generate_chunk_geometry(&chunk_with(&solid));
    assert_eq!(g.packed_vertices.len(), 3 * 24);
    for &v in &g.packed_vertices {
        let (x, y, z, _, m) = unpack(v);
        let owner = solid.iter().find(|&&(sx, sy, sz, id)| {
            let inside = |c: u32, s: usize| c as usize == s || c as usize == s + 1;
            inside(x, sx) && inside(y, sy) && inside(z, sz) && m == (id as u32) & 0x7FF
        });
        assert!(owner.is_some());
    }
    // an id wider than 11 bits keeps its low bits
    assert!(g.packed_vertices[24..48].iter().all(|&v| unpack(v).4 == 1));
}

#[test]
fn full_chunk_shows_only_its_shell() {
    let mut c = Chunk::new(GridPos::new(0, 0, 0), 0);
    for v in c.voxels.iter_mut() {
        *v = Voxel { id: 1 };
    }
    let g = generate_chunk_geometry(&c);
    let faces = 6 * 32 * 32;
    assert_eq!(g.packed_vertices.len(), faces * 4);
    assert_eq!(g.indices.len(), faces * 6);
    assert!(g.indices.iter().all(|&i| (i as usize) < g.packed_vertices.len()));
    assert!(g.packed_vertices.iter().all(|&v| unpack(v).3 < 6));
}

#[test]
fn column_coords_name_each_column_in_level_voxels() {
    let cols = column_coords(GridPos::new(2, 7, -3));
    assert_eq!(cols.len(), 1024);
    assert_eq!(cols[0], (64, -96));
    assert_eq!(cols[5 + 9 * 32], (69, -87));
    assert_eq!(cols[31 + 31 * 32], (95, -65));
}

#[test]
fn terrain_agrees_across_levels() {
    // one terrain height function of the world column, sampled per chunk
    let height = |wx: i64, wz: i64| -> i64 { (wx * 3 + wz * 5).rem_euclid(37) - 5 };
    let heights_for = |pos: GridPos, level: u32| -> Vec<i64> {
        column_coords(pos).iter().map(|&(x, z)| height(x << level, z << level)).collect()
    };
    let coarse_pos = GridPos::new(1, 0, -1);
    let coarse = generate_terrain(coarse_pos, 1, &heights_for(coarse_pos, 1));
    // the level-1 chunk at (1, 0, -1) spans world x in [64, 128), z in [-64, 0)
    for fine_pos in [GridPos::new(2, 0, -2), GridPos::new(3, 0, -1)] {
        let fine = generate_terrain(fine_pos, 0, &heights_for(fine_pos, 0));
        for x in (0..32).step_by(2) {
            for y in (0..32).step_by(2) {
                for z in (0..32).step_by(2) {
                    let wx = fine_pos.x as i64 * 32 + x as i64;
                    let wy = fine_pos.y as i64 * 32 + y as i64;
                    let wz = fine_pos.z as i64 * 32 + z as i64;
                    let cx = (wx / 2 - coarse_pos.x as i64 * 32) as usize;
                    let cy = (wy / 2 - coarse_pos.y as i64 * 32) as usize;
                    let cz = (wz.div_euclid(2) - coarse_pos.z as i64 * 32) as usize;
                    assert_eq!(
                        fine.voxels[Chunk::get_index(x, y, z)].id,
                        coarse.voxels[Chunk::get_index(cx, cy, cz)].id
                    );
                }
            }
        }
    }
}
