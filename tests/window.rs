use voxl::chunk::{update, Chunks};
use voxl::occlusion::Position;
use voxl::surface::ChunkCoord;

fn flat(_x: i64, _z: i64) -> i32 {
    0
}

fn square(cx: i64, cz: i64, d: i64) -> Vec<ChunkCoord> {
    let mut r = Vec::new();
    for x in cx - d..=cx + d {
        for z in cz - d..=cz + d {
            r.push((x, z));
        }
    }
    r.sort();
    r
}

fn snapshot(chunks: &Chunks) -> Vec<(ChunkCoord, Vec<Position>)> {
    chunks
        .loaded_coords()
        .into_iter()
        .map(|c| (c, chunks.chunk(c).unwrap().positions().clone()))
        .collect()
}

#[test]
fn single_chunk_flat_terrain_sits_at_baseline() {
    let mut chunks = Chunks::new();
    update(&mut chunks, 0, (0, 0), &flat);
    assert_eq!(chunks.loaded_count(), 1);
    let chunk = chunks.chunk((0, 0)).unwrap();
    assert_eq!(chunk.positions().len(), 256);
    assert_eq!(chunk.face_uvs().len(), 256);
    for p in chunk.positions() {
        assert_eq!(p.1, -80);
        assert!(0 <= p.0 && p.0 < 16);
        assert!(0 <= p.2 && p.2 < 16);
    }
    let mut columns: Vec<(i64, i64)> = chunk.positions().iter().map(|p| (p.0, p.2)).collect();
    columns.sort();
    columns.dedup();
    assert_eq!(columns.len(), 256);
}

#[test]
fn weight_edit_then_clear_regenerates_window() {
    let mut chunks = Chunks::new();
    update(&mut chunks, 1, (0, 0), &flat);
    assert_eq!(chunks.loaded_count(), 9);
    let before = snapshot(&chunks);

    let raised = |_x: i64, _z: i64| 5i32;
    chunks.clear();
    assert_eq!(chunks.loaded_count(), 0);
    assert_eq!(chunks.pool_count(), 9);
    update(&mut chunks, 1, (0, 0), &raised);
    assert_eq!(chunks.loaded_count(), 9);
    assert_eq!(chunks.pool_count(), 0);
    let after = snapshot(&chunks);
    assert_ne!(before, after);
    for (_, positions) in &after {
        assert_eq!(positions.len(), 256);
        assert!(positions.iter().all(|p| p.1 == -75));
    }
}

#[test]
fn loaded_set_is_exactly_the_window() {
    let mut chunks = Chunks::new();
    update(&mut chunks, 2, (0, 0), &flat);
    assert_eq!(chunks.loaded_coords(), square(0, 0, 2));
    update(&mut chunks, 1, (3, -1), &flat);
    assert_eq!(chunks.loaded_coords(), square(3, -1, 1));
    update(&mut chunks, 0, (-7, 4), &flat);
    assert_eq!(chunks.loaded_coords(), square(-7, 4, 0));
    update(&mut chunks, 3, (-7, 5), &flat);
    assert_eq!(chunks.loaded_coords(), square(-7, 5, 3));
    assert_eq!(chunks.loaded_count(), 49);
}

#[test]
fn second_update_changes_nothing() {
    let hilly = |x: i64, z: i64| ((x * 7 + z * 3) % 11) as i32;
    let mut chunks = Chunks::new();
    update(&mut chunks, 2, (1, 1), &flat);
    update(&mut chunks, 1, (1, 2), &hilly);
    let first = snapshot(&chunks);
    let pooled = chunks.pool_count();
    update(&mut chunks, 1, (1, 2), &hilly);
    assert_eq!(snapshot(&chunks), first);
    assert_eq!(chunks.pool_count(), pooled);
}

#[test]
fn unloaded_chunks_are_reused_before_allocating() {
    let mut chunks = Chunks::new();
    update(&mut chunks, 2, (0, 0), &flat);
    assert_eq!((chunks.loaded_count(), chunks.pool_count()), (25, 0));
    update(&mut chunks, 1, (0, 0), &flat);
    assert_eq!((chunks.loaded_count(), chunks.pool_count()), (9, 16));
    update(&mut chunks, 1, (10, 10), &flat);
    assert_eq!((chunks.loaded_count(), chunks.pool_count()), (9, 16));
    update(&mut chunks, 2, (10, 10), &flat);
    assert_eq!((chunks.loaded_count(), chunks.pool_count()), (25, 0));
    update(&mut chunks, 3, (10, 10), &flat);
    assert_eq!((chunks.loaded_count(), chunks.pool_count()), (49, 0));
    chunks.clear();
    assert_eq!((chunks.loaded_count(), chunks.pool_count()), (0, 49));
}

#[test]
fn kept_chunks_keep_their_content_when_the_window_moves() {
    let first_noise = |x: i64, z: i64| (x - z) as i32;
    let second_noise = |_x: i64, _z: i64| 40i32;
    let mut chunks = Chunks::new();
    update(&mut chunks, 1, (0, 0), &first_noise);
    let kept = chunks.chunk((1, 0)).unwrap().positions().clone();
    update(&mut chunks, 1, (1, 0), &second_noise);
    assert_eq!(chunks.chunk((1, 0)).unwrap().positions(), &kept);
    let fresh = chunks.chunk((2, 0)).unwrap().positions();
    assert!(fresh.iter().all(|p| p.1 == -40));
}

#[test]
fn empty_chunks_have_no_loaded_coordinates() {
    let chunks = Chunks::new();
    assert_eq!(chunks.loaded_count(), 0);
    assert_eq!(chunks.pool_count(), 0);
    assert!(chunks.loaded_coords().is_empty());
    assert!(chunks.chunk((0, 0)).is_none());
}
