use voxel_clipmap::clipmap::{ring_chunks, ChunkMove, ChunkSlot, Clipmap, ClipmapConfig};
use voxel_clipmap::grid::{chunk_coord_of, GridPos};

fn config(levels: u32, ring_size: i32) -> ClipmapConfig {
    ClipmapConfig { levels, ring_size }
}

fn has_duplicates(v: &[GridPos]) -> bool {
    for i in 0..v.len() {
        for j in (i + 1)..v.len() {
            if v[i] == v[j] {
                return true;
            }
        }
    }
    false
}

#[test]
fn default_config_has_four_rings_of_eight() {
    let c = ClipmapConfig::default();
    assert_eq!(c.levels, 4);
    assert_eq!(c.ring_size, 8);
}

#[test]
fn chunk_coord_rounds_down() {
    assert_eq!(chunk_coord_of(0, 0), 0);
    assert_eq!(chunk_coord_of(31, 0), 0);
    assert_eq!(chunk_coord_of(32, 0), 1);
    assert_eq!(chunk_coord_of(-1, 0), -1);
    assert_eq!(chunk_coord_of(-32, 0), -1);
    assert_eq!(chunk_coord_of(-33, 0), -2);
    assert_eq!(chunk_coord_of(63, 1), 0);
    assert_eq!(chunk_coord_of(64, 1), 1);
    assert_eq!(chunk_coord_of(-65, 1), -2);
    assert_eq!(chunk_coord_of(100, 2), 0);
    assert_eq!(chunk_coord_of(128, 2), 1);
}

#[test]
fn chunk_coord_at_huge_levels() {
    assert_eq!(chunk_coord_of(i32::MAX, 26), 0);
    assert_eq!(chunk_coord_of(i32::MIN, 26), -1);
    assert_eq!(chunk_coord_of(i32::MIN, 25), -2);
    assert_eq!(chunk_coord_of(i32::MAX, 25), 1);
    assert_eq!(chunk_coord_of(5, u32::MAX), 0);
    assert_eq!(chunk_coord_of(-5, u32::MAX), -1);
    assert_eq!(chunk_coord_of(i32::MIN, 0), -67108864);
}

#[test]
fn chunk_coords_nest_between_levels() {
    for cell in [-1000, -65, -64, -33, -1, 0, 1, 31, 32, 63, 64, 1000, 123456] {
        for level in 1..6u32 {
            assert_eq!(
                chunk_coord_of(cell, level),
                chunk_coord_of(cell, level - 1).div_euclid(2)
            );
        }
    }
}

#[test]
fn camera_lies_in_its_chunk() {
    for cell in [-1000, -65, -33, -1, 0, 1, 31, 32, 1000] {
        for level in 0..5u32 {
            let c = chunk_coord_of(cell, level) as i64;
            let w = 32i64 << level;
            assert!(c * w <= cell as i64 && (cell as i64) < (c + 1) * w);
        }
    }
}

#[test]
fn finest_ring_is_a_full_box() {
    let ring = ring_chunks(&config(4, 8), GridPos::new(0, 0, 0), 0);
    assert_eq!(ring.len(), 8 * 4 * 8);
    assert!(!has_duplicates(&ring));
    assert!(ring.contains(&GridPos::new(-4, -2, -4)));
    assert!(ring.contains(&GridPos::new(3, 1, 3)));
    assert!(ring.contains(&GridPos::new(0, 0, 0)));
    assert!(!ring.contains(&GridPos::new(4, 0, 0)));
    assert!(!ring.contains(&GridPos::new(0, 2, 0)));
    assert!(!ring.contains(&GridPos::new(0, -3, 0)));
}

#[test]
fn finest_ring_follows_camera() {
    let ring = ring_chunks(&config(4, 8), GridPos::new(0, 50, 100), 0);
    // camera chunk is (0, 1, 3)
    assert_eq!(ring.len(), 256);
    assert!(ring.contains(&GridPos::new(0, 1, 3)));
    assert!(ring.contains(&GridPos::new(-4, -1, -1)));
    assert!(ring.contains(&GridPos::new(3, 2, 6)));
    assert!(!ring.contains(&GridPos::new(3, 3, 6)));
    assert!(!ring.contains(&GridPos::new(3, 2, 7)));
}

#[test]
fn coarser_ring_carves_out_finer_ring() {
    let ring = ring_chunks(&config(4, 8), GridPos::new(0, 0, 0), 1);
    // x, z in -2..2 lie inside the finer ring's cube on every axis, across
    // the whole y band of the coarse ring
    assert_eq!(ring.len(), 256 - 4 * 4 * 4);
    assert!(!has_duplicates(&ring));
    assert!(!ring.contains(&GridPos::new(-2, 0, -2)));
    assert!(!ring.contains(&GridPos::new(1, -1, 1)));
    // y = 1 spans [64, 128), inside the cube [-256, 256) though above the
    // finer ring's band
    assert!(!ring.contains(&GridPos::new(1, 1, 1)));
    assert!(!ring.contains(&GridPos::new(0, -2, 0)));
    assert!(ring.contains(&GridPos::new(-3, 0, 0)));
    assert!(ring.contains(&GridPos::new(2, -2, 1)));
}

#[test]
fn carving_removes_chunks_that_straddle_the_finer_ring() {
    // camera cell 32: level-0 centre 1, finer ring spans x in [-96, 160);
    // level-1 chunk -2 spans [-128, -64) and overlaps it, so it is carved.
    let ring = ring_chunks(&config(4, 8), GridPos::new(32, 0, 0), 1);
    assert!(!ring.contains(&GridPos::new(-2, 0, 0)));
    assert!(!ring.contains(&GridPos::new(-1, 0, 0)));
    assert!(ring.contains(&GridPos::new(-3, 0, 0)));
}

#[test]
fn levels_do_not_overlap() {
    let cfg = config(2, 8);
    let cam = GridPos::new(40, 0, 0);
    // level-0 chunk 4 spans x in [128, 160); level-1 chunk 2 spans [128, 192)
    assert!(ring_chunks(&cfg, cam, 0).contains(&GridPos::new(4, 0, 0)));
    assert!(!ring_chunks(&cfg, cam, 1).contains(&GridPos::new(2, 0, 0)));
    for cam in [GridPos::new(40, 0, 0), GridPos::new(-77, 13, 901), GridPos::new(5000, -300, -42)] {
        for level in 1..4u32 {
            let coarse = ring_chunks(&config(4, 8), cam, level);
            let fine = ring_chunks(&config(4, 8), cam, level - 1);
            let w = 32i64 << level;
            let fw = 32i64 << (level - 1);
            for p in &coarse {
                for q in &fine {
                    let apart = |a: i32, b: i32| {
                        (a as i64 + 1) * w <= b as i64 * fw || (b as i64 + 1) * fw <= a as i64 * w
                    };
                    assert!(apart(p.x, q.x) || apart(p.y, q.y) || apart(p.z, q.z));
                }
            }
        }
    }
}

#[test]
fn odd_and_empty_rings() {
    assert_eq!(ring_chunks(&config(1, 5), GridPos::new(0, 0, 0), 0).len(), 4 * 4 * 4);
    assert_eq!(ring_chunks(&config(1, 1), GridPos::new(0, 0, 0), 0).len(), 0);
    assert_eq!(ring_chunks(&config(1, 0), GridPos::new(0, 0, 0), 0).len(), 0);
    assert_eq!(ring_chunks(&config(1, -8), GridPos::new(0, 0, 0), 0).len(), 0);
}

#[test]
fn ring_size_stays_bounded_at_every_level() {
    for level in 0..6u32 {
        for cam in [GridPos::new(0, 0, 0), GridPos::new(-77, 13, 901), GridPos::new(5000, -300, -42)] {
            let ring = ring_chunks(&config(6, 8), cam, level);
            assert!(ring.len() <= 256);
            assert!(!has_duplicates(&ring));
        }
    }
}

fn spawn_all(clipmap: &mut Clipmap, level: u32, spawn: &[GridPos], next_entity: &mut u64) {
    let mut slots = Vec::new();
    for p in spawn {
        slots.push(ChunkSlot { pos: *p, entity: *next_entity });
        *next_entity += 1;
    }
    clipmap.insert_chunks(level, &slots);
}

#[test]
fn update_spawns_the_whole_ring_first() {
    let cfg = config(2, 2);
    let mut clipmap = Clipmap::new();
    let plan = clipmap.update_rings(&cfg, GridPos::new(0, 0, 0));
    assert_eq!(plan.len(), 2);
    assert_eq!(plan[0].spawn.len(), 16);
    assert_eq!(plan[0].despawn.len(), 0);
    assert!(plan[0].moves.is_empty());
    assert_eq!(clipmap.level_count(), 2);
    assert_eq!(clipmap.entity_at(0, GridPos::new(0, 0, 0)), None);
    let mut next = 100;
    for (level, update) in plan.iter().enumerate() {
        spawn_all(&mut clipmap, level as u32, &update.spawn, &mut next);
    }
    for p in &plan[0].spawn {
        assert!(clipmap.entity_at(0, *p).is_some());
    }
    assert_eq!(clipmap.entity_at(0, GridPos::new(5, 0, 0)), None);
}

#[test]
fn moving_the_camera_shifts_the_ring() {
    let cfg = config(1, 2);
    let mut clipmap = Clipmap::new();
    let plan = clipmap.update_rings(&cfg, GridPos::new(0, 0, 0));
    let mut next = 1;
    spawn_all(&mut clipmap, 0, &plan[0].spawn, &mut next);
    let kept = clipmap.entity_at(0, GridPos::new(0, 0, 0)).unwrap();
    let leaving = clipmap.entity_at(0, GridPos::new(-1, 0, 0)).unwrap();
    let mut before: Vec<u64> = ring_chunks(&cfg, GridPos::new(0, 0, 0), 0)
        .iter()
        .map(|p| clipmap.entity_at(0, *p).unwrap())
        .collect();
    before.sort();

    // one chunk east: the column x = -1 wraps round to x = 1
    let plan = clipmap.update_rings(&cfg, GridPos::new(32, 0, 0));
    assert!(plan[0].spawn.is_empty());
    assert!(plan[0].despawn.is_empty());
    assert_eq!(plan[0].moves.len(), 8);
    assert!(plan[0].moves.iter().all(|m| m.from.x == -1 && m.to.x == 1));
    let m = plan[0].moves.iter().find(|m| m.entity == leaving).unwrap();
    assert_eq!(clipmap.entity_at(0, m.to), Some(leaving));
    assert_eq!(clipmap.entity_at(0, GridPos::new(0, 0, 0)), Some(kept));
    assert_eq!(clipmap.entity_at(0, GridPos::new(-1, 0, 0)), None);
    let mut after: Vec<u64> = ring_chunks(&cfg, GridPos::new(32, 0, 0), 0)
        .iter()
        .map(|p| clipmap.entity_at(0, *p).unwrap())
        .collect();
    after.sort();
    assert_eq!(before, after);
}

#[test]
fn coarse_levels_reuse_what_they_can() {
    let cfg = config(2, 8);
    let mut clipmap = Clipmap::new();
    let plan = clipmap.update_rings(&cfg, GridPos::new(0, 0, 0));
    let mut next = 1;
    for (level, update) in plan.iter().enumerate() {
        spawn_all(&mut clipmap, level as u32, &update.spawn, &mut next);
    }
    // level 1 keeps 192 chunks: 8 leave on x = 2 and 8 enter on x = -2,
    // so its entities move and none is spawned or despawned
    let plan = clipmap.update_rings(&cfg, GridPos::new(32, 0, 0));
    assert!(plan[0].spawn.is_empty() && plan[0].despawn.is_empty());
    assert!(plan[1].spawn.is_empty());
    assert!(plan[1].despawn.is_empty());
    assert_eq!(plan[1].moves.len(), 8);
    assert!(plan[1].moves.iter().all(|m| m.from.x == 2 && m.to.x == -2));
    for p in ring_chunks(&cfg, GridPos::new(32, 0, 0), 1) {
        assert!(clipmap.entity_at(1, p).is_some());
    }
}

#[test]
fn standing_still_changes_nothing() {
    let cfg = config(3, 4);
    let mut clipmap = Clipmap::new();
    let cam = GridPos::new(-300, 40, 77);
    let plan = clipmap.update_rings(&cfg, cam);
    let mut next = 1;
    for (level, update) in plan.iter().enumerate() {
        spawn_all(&mut clipmap, level as u32, &update.spawn, &mut next);
    }
    let plan = clipmap.update_rings(&cfg, cam);
    for update in &plan {
        assert!(update.moves.is_empty());
        assert!(update.spawn.is_empty());
        assert!(update.despawn.is_empty());
    }
}

#[test]
fn insert_chunk_replaces_an_entity() {
    let mut clipmap = Clipmap::new();
    clipmap.insert_chunk(2, GridPos::new(1, 2, 3), 7);
    assert_eq!(clipmap.level_count(), 3);
    assert_eq!(clipmap.entity_at(2, GridPos::new(1, 2, 3)), Some(7));
    clipmap.insert_chunk(2, GridPos::new(1, 2, 3), 9);
    assert_eq!(clipmap.entity_at(2, GridPos::new(1, 2, 3)), Some(9));
    assert_eq!(clipmap.entity_at(1, GridPos::new(1, 2, 3)), None);
}

#[test]
fn update_level_moves_leaving_entities_to_entering_chunks() {
    let mut clipmap = Clipmap::new();
    clipmap.insert_chunk(0, GridPos::new(0, 0, 0), 1);
    clipmap.insert_chunk(0, GridPos::new(1, 0, 0), 2);
    let ring = vec![GridPos::new(1, 0, 0), GridPos::new(2, 0, 0)];
    let update = clipmap.update_level(0, &ring);
    assert!(update.spawn.is_empty());
    assert!(update.despawn.is_empty());
    assert_eq!(
        update.moves,
        vec![ChunkMove { entity: 1, from: GridPos::new(0, 0, 0), to: GridPos::new(2, 0, 0) }]
    );
    assert_eq!(clipmap.entity_at(0, GridPos::new(0, 0, 0)), None);
    assert_eq!(clipmap.entity_at(0, GridPos::new(1, 0, 0)), Some(2));
    assert_eq!(clipmap.entity_at(0, GridPos::new(2, 0, 0)), Some(1));
}

#[test]
fn update_level_spawns_or_despawns_the_difference() {
    let mut clipmap = Clipmap::new();
    clipmap.insert_chunk(0, GridPos::new(0, 0, 0), 1);
    clipmap.insert_chunk(0, GridPos::new(1, 0, 0), 2);
    clipmap.insert_chunk(0, GridPos::new(2, 0, 0), 3);
    let update = clipmap.update_level(0, &vec![GridPos::new(5, 0, 0)]);
    assert_eq!(update.moves.len(), 1);
    assert_eq!(update.despawn.len(), 2);
    assert!(update.spawn.is_empty());
    let moved = update.moves[0].entity;
    assert_eq!(clipmap.entity_at(0, GridPos::new(5, 0, 0)), Some(moved));
    let mut all: Vec<u64> = update.despawn.iter().map(|s| s.entity).collect();
    all.push(moved);
    all.sort();
    assert_eq!(all, vec![1, 2, 3]);

    let update = clipmap.update_level(0, &vec![GridPos::new(5, 0, 0), GridPos::new(6, 0, 0), GridPos::new(7, 0, 0)]);
    assert!(update.moves.is_empty());
    assert!(update.despawn.is_empty());
    assert_eq!(update.spawn.len(), 2);
    assert!(update.spawn.contains(&GridPos::new(6, 0, 0)) && update.spawn.contains(&GridPos::new(7, 0, 0)));
}

#[test]
fn coarse_ring_carving_follows_finer_ring_alignment() {
    // the level-0 centre x = 1 is odd: level-1 columns -1..=1 lie inside the
    // finer cube, and columns -2 and 2 straddle the finer ring's box
    let ring = ring_chunks(&config(4, 8), GridPos::new(32, 0, 0), 1);
    assert_eq!(ring.len(), 256 - (3 * 4 * 4 + 2 * 2 * 4));
    assert!(!ring.contains(&GridPos::new(2, 0, 0)));
    assert!(ring.contains(&GridPos::new(2, 1, 0)));
    assert!(!ring.contains(&GridPos::new(1, 1, 0)));
    assert!(ring.contains(&GridPos::new(-2, 1, 0)));
    let ring = ring_chunks(&config(4, 8), GridPos::new(0, 0, 0), 1);
    assert_eq!(ring.len(), 256 - 4 * 4 * 4);
    assert!(ring.contains(&GridPos::new(2, 0, 0)));
    assert!(!ring.contains(&GridPos::new(-2, 1, 0)));
}
