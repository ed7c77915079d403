use voxl::chunk::{column_totals, default_face_uvs, update, AtlasUv, Chunks};
use voxl::occlusion::{cull_hidden, Position};
use voxl::surface::{surface_candidates, BASELINE_OFFSET, COLUMNS_PER_CHUNK};

fn cube_around(c: Position) -> Vec<Position> {
    let mut r = Vec::new();
    for dz in -1..=1 {
        for dy in -1..=1 {
            for dx in -1..=1 {
                if (dx, dy, dz) != (0, 0, 0) {
                    r.push((c.0 + dx, c.1 + dy, c.2 + dz));
                }
            }
        }
    }
    r
}

fn sorted(mut v: Vec<Position>) -> Vec<Position> {
    v.sort();
    v
}

#[test]
fn enclosed_voxel_is_removed_first_in_order() {
    let centre = (4, 10, -3);
    let mut cands = vec![centre];
    cands.extend(cube_around(centre));
    let mut kept = Vec::new();
    cull_hidden(&cands, &mut kept);
    assert_eq!(kept.len(), 26);
    assert!(!kept.contains(&centre));
    assert_eq!(sorted(kept), sorted(cube_around(centre)));
}

#[test]
fn enclosed_voxel_is_removed_last_in_order() {
    let centre = (0, 0, 0);
    let mut cands = cube_around(centre);
    cands.push(centre);
    let mut kept = vec![(99, 99, 99)];
    cull_hidden(&cands, &mut kept);
    assert_eq!(kept, cube_around(centre));
}

#[test]
fn enclosed_voxel_is_removed_in_the_middle() {
    let centre = (-20, 5, 7);
    let mut cands = cube_around(centre);
    cands.insert(13, centre);
    let mut kept = Vec::new();
    cull_hidden(&cands, &mut kept);
    assert_eq!(kept, cube_around(centre));
}

#[test]
fn lone_voxel_is_kept() {
    let mut kept = Vec::new();
    cull_hidden(&vec![(1, 2, 3)], &mut kept);
    assert_eq!(kept, vec![(1, 2, 3)]);
    cull_hidden(&Vec::new(), &mut kept);
    assert!(kept.is_empty());
}

#[test]
fn boundary_seam_keeps_edge_voxels() {
    // A slab at the chunk's x = 15 edge, two voxels deep; the neighbouring chunk's
    // voxels at x = 16 would close the edge column in, but they are not consulted.
    let mut cands = Vec::new();
    for z in 4..=6 {
        for y in -1..=1 {
            for x in 14..=15 {
                cands.push((x, y, z));
            }
        }
    }
    let mut kept = Vec::new();
    cull_hidden(&cands, &mut kept);
    assert!(kept.contains(&(15, 0, 5)));
    assert_eq!(kept.len(), cands.len());
}

#[test]
fn candidates_place_one_voxel_per_column() {
    let totals: Vec<i32> = (0..COLUMNS_PER_CHUNK as i32).collect();
    let cands = surface_candidates((-1, 2), &totals);
    assert_eq!(cands.len(), 256);
    assert_eq!(cands[0], (-16, -80, 32));
    assert_eq!(cands[1], (-15, -79, 32));
    assert_eq!(cands[16], (-16, -64, 33));
    assert_eq!(cands[255], (-1, 175, 47));
    for (k, p) in cands.iter().enumerate() {
        assert_eq!(p.1, totals[k] as i64 - BASELINE_OFFSET);
    }
}

#[test]
fn column_totals_ask_each_world_column() {
    let f = |x: i64, z: i64| (x * 1000 + z) as i32;
    let totals = column_totals((2, -3), &f);
    assert_eq!(totals.len(), 256);
    assert_eq!(totals[0], 32 * 1000 - 48);
    assert_eq!(totals[17], 33 * 1000 - 47);
    assert_eq!(totals[255], 47 * 1000 - 33);
}

#[test]
fn loaded_chunk_is_culled_surface_of_its_columns() {
    let steep = |x: i64, z: i64| ((x * x + 3 * z) % 5) as i32 * 2;
    let mut chunks = Chunks::new();
    update(&mut chunks, 1, (-2, 3), &steep);
    for c in chunks.loaded_coords() {
        let totals = column_totals(c, &steep);
        let cands = surface_candidates(c, &totals);
        let mut expected = Vec::new();
        cull_hidden(&cands, &mut expected);
        let chunk = chunks.chunk(c).unwrap();
        assert_eq!(chunk.positions(), &expected);
        assert_eq!(chunk.face_uvs().len(), expected.len());
    }
}

#[test]
fn faces_use_atlas_cell_zero_one() {
    let uvs = default_face_uvs();
    assert!(uvs.iter().all(|uv| *uv == AtlasUv { u: 0, v: 1 }));
    let mut chunks = Chunks::new();
    update(&mut chunks, 0, (5, 5), &|_x: i64, _z: i64| 3);
    let chunk = chunks.chunk((5, 5)).unwrap();
    assert!(chunk.face_uvs().iter().all(|f| *f == uvs));
    assert!(chunk.positions().iter().all(|p| p.1 == -77));
}
