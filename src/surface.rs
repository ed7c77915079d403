//! Surface extraction: one voxel per column of a chunk, at the column's terrain height.
use vstd::prelude::*;
use crate::occlusion::{all_in_probe_range, in_probe_range, Position};

verus! {

/// Side length of a chunk, in columns.
pub const CHUNK_SIZE: usize = 16;

/// Number of columns, hence of surface candidates, in one chunk.
pub const COLUMNS_PER_CHUNK: usize = 256;

/// Vertical shift subtracted from every rounded noise total.
pub const BASELINE_OFFSET: i64 = 80;

/// Chunk coordinates (cx, cz) of the chunks whose world columns all stay clear of
/// the `i64` limits, with a step of one to spare.
pub const MIN_CHUNK: i64 = -576460752303423487;
pub const MAX_CHUNK: i64 = 576460752303423486;

/// A chunk coordinate: (cx, cz).
pub type ChunkCoord = (i64, i64);

pub open spec fn chunk_in_range(c: ChunkCoord) -> bool {
    &&& MIN_CHUNK <= c.0 <= MAX_CHUNK
    &&& MIN_CHUNK <= c.1 <= MAX_CHUNK
}

/// World x of column `k` of chunk `c`; columns run x fastest, then z.
pub open spec fn column_x(c: ChunkCoord, k: int) -> int {
    c.0 * 16 + k % 16
}

/// World z of column `k` of chunk `c`.
pub open spec fn column_z(c: ChunkCoord, k: int) -> int {
    c.1 * 16 + k / 16
}

/// Surface height of a column whose layered noise total rounds to `total`.
pub open spec fn surface_height(total: i32) -> int {
    total - BASELINE_OFFSET
}

/// The surface candidates of chunk `c`, one per column, from the columns' rounded
/// noise totals.
pub open spec fn candidates(c: ChunkCoord, totals: Seq<i32>) -> Seq<Position> {
    Seq::new(
        256,
        |k: int|
            (
                column_x(c, k) as i64,
                surface_height(totals[k]) as i64,
                column_z(c, k) as i64,
            ),
    )
}

proof fn lemma_column_index(lz: int, lx: int)
    requires
        0 <= lz < 16,
        0 <= lx < 16,
    ensures
        (lz * 16 + lx) % 16 == lx,
        (lz * 16 + lx) / 16 == lz,
        0 <= lz * 16 + lx < 256,
{
}

/// The candidates of a chunk in range can all be probed one step further.
pub proof fn lemma_candidates_in_probe_range(c: ChunkCoord, totals: Seq<i32>)
    requires
        chunk_in_range(c),
        totals.len() == 256,
    ensures
        all_in_probe_range(candidates(c, totals)),
{
    assert forall|k: int| 0 <= k < 256 implies #[trigger] in_probe_range(candidates(c, totals)[k]) by {
        lemma_column_index(k / 16, k % 16);
    }
}

/// Builds the candidates of chunk `c` from the rounded noise totals of its columns.
pub fn surface_candidates(c: ChunkCoord, totals: &Vec<i32>) -> (r: Vec<Position>)
    requires
        chunk_in_range(c),
        totals.len() == COLUMNS_PER_CHUNK,
    ensures
        r@ == candidates(c, totals@),
{
    let mut r: Vec<Position> = Vec::with_capacity(COLUMNS_PER_CHUNK);
    let x0: i64 = c.0 * 16;
    let z0: i64 = c.1 * 16;
    let mut lz: usize = 0;
    while lz < CHUNK_SIZE
        invariant
            lz <= CHUNK_SIZE,
            chunk_in_range(c),
            x0 == c.0 * 16,
            z0 == c.1 * 16,
            totals.len() == COLUMNS_PER_CHUNK,
            r@ == candidates(c, totals@).take(lz * 16),
        decreases CHUNK_SIZE - lz,
    {
        let mut lx: usize = 0;
        while lx < CHUNK_SIZE
            invariant
                lx <= CHUNK_SIZE,
                lz < CHUNK_SIZE,
                chunk_in_range(c),
                x0 == c.0 * 16,
                z0 == c.1 * 16,
                totals.len() == COLUMNS_PER_CHUNK,
                r@ == candidates(c, totals@).take(lz * 16 + lx),
            decreases CHUNK_SIZE - lx,
        {
            proof {
                lemma_column_index(lz as int, lx as int);
            }
            let k: usize = lz * CHUNK_SIZE + lx;
            let p: Position = (x0 + lx as i64, totals[k] as i64 - BASELINE_OFFSET, z0 + lz as i64);
            assert(p == candidates(c, totals@)[k as int]);
            r.push(p);
            assert(r@ =~= candidates(c, totals@).take(lz * 16 + lx + 1));
            lx = lx + 1;
        }
        lz = lz + 1;
    }
    assert(r@ =~= candidates(c, totals@));
    r
}

} // verus!
