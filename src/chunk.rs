//! Loaded chunks around the observer, and the pool of chunks whose storage is reused.
use vstd::prelude::*;
use std::collections::BTreeMap;
use crate::occlusion::{cull_hidden, exposed_voxels, Position};
use crate::surface::{
    candidates, chunk_in_range, column_x, column_z, lemma_candidates_in_probe_range,
    surface_candidates, ChunkCoord, CHUNK_SIZE, COLUMNS_PER_CHUNK, MAX_CHUNK, MIN_CHUNK,
};

verus! {

broadcast use vstd::std_specs::btree::group_btree_axioms, vstd::laws_cmp::group_laws_cmp;

/// Texture-atlas cell shown on one face of a voxel.
#[derive(Clone, Copy, Debug, PartialEq, Eq, Structural)]
pub struct AtlasUv {
    pub u: u32,
    pub v: u32,
}

/// Atlas cells of the six faces of a voxel.
pub type FaceUvs = [AtlasUv; 6];

/// Every face shows atlas cell (0, 1).
pub open spec fn is_default_face_uvs(f: FaceUvs) -> bool {
    forall|i: int| 0 <= i < 6 ==> f@[i] == (AtlasUv { u: 0, v: 1 })
}

/// The face cells given to every generated voxel.
pub fn default_face_uvs() -> (r: FaceUvs)
    ensures
        is_default_face_uvs(r),
{
    let uv = AtlasUv { u: 0, v: 1 };
    [uv, uv, uv, uv, uv, uv]
}

/// One chunk's render data: voxel positions and, aligned with them, face cells.
pub struct Chunk {
    positions: Vec<Position>,
    face_uvs: Vec<FaceUvs>,
}

impl Chunk {
    /// Voxel positions, in render order.
    pub closed spec fn voxels(self) -> Seq<Position> {
        self.positions@
    }

    /// Face cells, one entry per voxel.
    pub closed spec fn uvs(self) -> Seq<FaceUvs> {
        self.face_uvs@
    }

    /// The chunk holds the exposed surface of chunk `c` whose columns have the rounded
    /// noise totals `totals`, each voxel with the default face cells.
    pub open spec fn holds_surface(self, c: ChunkCoord, totals: Seq<i32>) -> bool {
        &&& self.voxels() == exposed_voxels(candidates(c, totals))
        &&& self.uvs().len() == self.voxels().len()
        &&& forall|i: int| 0 <= i < self.uvs().len() ==> is_default_face_uvs(#[trigger] self.uvs()[i])
    }

    fn with_capacity(capacity: usize) -> (r: Chunk)
        ensures
            r.voxels().len() == 0,
            r.uvs().len() == 0,
    {
        Chunk { positions: Vec::with_capacity(capacity), face_uvs: Vec::with_capacity(capacity) }
    }

    /// Overwrites the chunk, in its existing storage, with the surface of chunk `c`.
    fn fill(&mut self, c: ChunkCoord, totals: &Vec<i32>)
        requires
            chunk_in_range(c),
            totals.len() == COLUMNS_PER_CHUNK,
        ensures
            final(self).holds_surface(c, totals@),
    {
        let cands = surface_candidates(c, totals);
        proof {
            lemma_candidates_in_probe_range(c, totals@);
        }
        cull_hidden(&cands, &mut self.positions);
        self.face_uvs.clear();
        let n = self.positions.len();
        let mut i: usize = 0;
        while i < n
            invariant
                i <= n,
                n == self.positions.len(),
                self.positions@ == exposed_voxels(candidates(c, totals@)),
                self.face_uvs@.len() == i,
                forall|j: int| 0 <= j < i ==> is_default_face_uvs(#[trigger] self.face_uvs@[j]),
            decreases n - i,
        {
            self.face_uvs.push(default_face_uvs());
            i = i + 1;
        }
    }

    /// Voxel positions, one (x, y, z) per voxel.
    pub fn positions(&self) -> (r: &Vec<Position>)
        ensures
            r@ == self.voxels(),
    {
        &self.positions
    }

    /// Face cells, aligned with `positions`.
    pub fn face_uvs(&self) -> (r: &Vec<FaceUvs>)
        ensures
            r@ == self.uvs(),
    {
        &self.face_uvs
    }
}

/// The rounded noise totals that `f` gives the columns of chunk `c`, in column order.
pub open spec fn totals_from<F: Fn(i64, i64) -> i32>(f: F, c: ChunkCoord, totals: Seq<i32>) -> bool {
    &&& totals.len() == 256
    &&& forall|k: int|
        0 <= k < 256 ==> call_ensures(f, (column_x(c, k) as i64, column_z(c, k) as i64), #[trigger] totals[k])
}

/// The chunk holds the surface of chunk `c` for some totals that `f` returns for its columns.
pub open spec fn generated_by<F: Fn(i64, i64) -> i32>(f: F, c: ChunkCoord, chunk: Chunk) -> bool {
    exists|totals: Seq<i32>| totals_from(f, c, totals) && #[trigger] chunk.holds_surface(c, totals)
}

/// Asks `column_total` for the rounded noise total of every column of chunk `c`.
pub fn column_totals<F: Fn(i64, i64) -> i32>(c: ChunkCoord, column_total: &F) -> (r: Vec<i32>)
    requires
        chunk_in_range(c),
        forall|x: i64, z: i64| column_total.requires((x, z)),
    ensures
        totals_from(*column_total, c, r@),
{
    let mut r: Vec<i32> = Vec::with_capacity(COLUMNS_PER_CHUNK);
    let x0: i64 = c.0 * 16;
    let z0: i64 = c.1 * 16;
    let mut lz: usize = 0;
    while lz < CHUNK_SIZE
        invariant
            lz <= CHUNK_SIZE,
            chunk_in_range(c),
            x0 == c.0 * 16,
            z0 == c.1 * 16,
            forall|x: i64, z: i64| column_total.requires((x, z)),
            r@.len() == lz * 16,
            forall|k: int|
                0 <= k < r@.len() ==> call_ensures(
                    *column_total,
                    (column_x(c, k) as i64, column_z(c, k) as i64),
                    #[trigger] r@[k],
                ),
        decreases CHUNK_SIZE - lz,
    {
        let mut lx: usize = 0;
        while lx < CHUNK_SIZE
            invariant
                lx <= CHUNK_SIZE,
                lz < CHUNK_SIZE,
                chunk_in_range(c),
                x0 == c.0 * 16,
                z0 == c.1 * 16,
                forall|x: i64, z: i64| column_total.requires((x, z)),
                r@.len() == lz * 16 + lx,
                forall|k: int|
                    0 <= k < r@.len() ==> call_ensures(
                        *column_total,
                        (column_x(c, k) as i64, column_z(c, k) as i64),
                        #[trigger] r@[k],
                    ),
            decreases CHUNK_SIZE - lx,
        {
            let k: usize = lz * CHUNK_SIZE + lx;
            assert(k % 16 == lx && k / 16 == lz);
            let t = column_total(x0 + lx as i64, z0 + lz as i64);
            r.push(t);
            lx = lx + 1;
        }
        lz = lz + 1;
    }
    r
}

/// Chunk `k` lies in the square of half-width `d` centred on chunk `center`.
pub open spec fn in_window(center: ChunkCoord, d: int, k: ChunkCoord) -> bool {
    &&& center.0 - d <= k.0 <= center.0 + d
    &&& center.1 - d <= k.1 <= center.1 + d
}

/// The chunk coordinates [cx - d, cx + d] x [cz - d, cz + d].
pub open spec fn window(center: ChunkCoord, d: int) -> Set<ChunkCoord> {
    Set::new(|k: ChunkCoord| in_window(center, d, k))
}

/// Every chunk of the window lies in range.
pub open spec fn window_in_range(center: ChunkCoord, d: int) -> bool {
    &&& 0 <= d
    &&& MIN_CHUNK <= center.0 - d
    &&& center.0 + d <= MAX_CHUNK
    &&& MIN_CHUNK <= center.1 - d
    &&& center.1 + d <= MAX_CHUNK
}

/// The chunks of `m` at `keys`, in that order.
pub open spec fn chunks_at(m: Map<ChunkCoord, Chunk>, keys: Seq<ChunkCoord>) -> Seq<Chunk> {
    keys.map_values(|k: ChunkCoord| m[k])
}

/// The loaded chunks, keyed by chunk coordinate, and a pool of unloaded chunks whose
/// storage is handed to the next chunk that loads.
pub struct Chunks {
    loaded: BTreeMap<ChunkCoord, Chunk>,
    pool: Vec<Chunk>,
}

/// What `update(before, d, center, f)` leaves as `after`.
pub open spec fn is_update<F: Fn(i64, i64) -> i32>(
    before: Chunks,
    after: Chunks,
    d: int,
    center: ChunkCoord,
    f: F,
) -> bool {
    &&& after.loaded().dom() == window(center, d)
    &&& forall|k: ChunkCoord|
        #[trigger] after.loaded().contains_key(k) && before.loaded().contains_key(k)
            ==> after.loaded()[k] == before.loaded()[k]
    &&& forall|k: ChunkCoord|
        #[trigger] after.loaded().contains_key(k) && !before.loaded().contains_key(k)
            ==> generated_by(f, k, after.loaded()[k])
    &&& after.total() == if before.total() >= after.loaded().len() {
        before.total()
    } else {
        after.loaded().len()
    }
    &&& before.loaded().dom() == window(center, d) ==> after.pool() == before.pool()
    &&& exists|evicted: Seq<ChunkCoord>|
        {
            &&& evicted.no_duplicates()
            &&& forall|k: ChunkCoord|
                #[trigger] evicted.contains(k) <==> (before.loaded().contains_key(k) && !in_window(
                    center,
                    d,
                    k,
                ))
            &&& after.pool() == (before.pool() + #[trigger] chunks_at(before.loaded(), evicted)).take(
                after.pool().len() as int,
            )
        }
}

impl Chunks {
    /// The loaded chunks.
    pub closed spec fn loaded(self) -> Map<ChunkCoord, Chunk> {
        self.loaded@
    }

    /// The unloaded chunks awaiting reuse.
    pub closed spec fn pool(self) -> Seq<Chunk> {
        self.pool@
    }

    /// Chunk objects in existence: loaded ones and pooled ones.
    pub open spec fn total(self) -> nat {
        self.loaded().len() + self.pool().len()
    }

    /// No chunk loaded, none pooled.
    pub fn new() -> (r: Chunks)
        ensures
            r.loaded() == Map::<ChunkCoord, Chunk>::empty(),
            r.pool().len() == 0,
    {
        Chunks { loaded: BTreeMap::new(), pool: Vec::new() }
    }

    /// Moves every loaded chunk, contents intact, into the pool.
    pub fn clear(&mut self)
        ensures
            final(self).loaded() == Map::<ChunkCoord, Chunk>::empty(),
            exists|keys: Seq<ChunkCoord>|
                {
                    &&& keys.no_duplicates()
                    &&& keys.to_set() == old(self).loaded().dom()
                    &&& final(self).pool() == old(self).pool() + #[trigger] chunks_at(old(self).loaded(), keys)
                },
            final(self).pool().len() == old(self).pool().len() + old(self).loaded().len(),
            final(self).total() == old(self).total(),
    {
        let keys = self.loaded_coords();
        let mut i: usize = 0;
        while i < keys.len()
            invariant
                i <= keys.len(),
                keys@.to_set() == old(self).loaded().dom(),
                keys@.no_duplicates(),
                self.loaded@ == old(self).loaded@.remove_keys(keys@.take(i as int).to_set()),
                self.pool@.len() + self.loaded@.len() == old(self).total(),
                self.pool@ == old(self).pool@ + chunks_at(old(self).loaded@, keys@.take(i as int)),
            decreases keys.len() - i,
        {
            let k = keys[i];
            assert(keys@.take(i + 1) == keys@.take(i as int).push(k));
            proof {
                keys@.take(i as int).lemma_push_to_set_commute(k);
                assert(chunks_at(old(self).loaded@, keys@.take(i + 1)) =~= chunks_at(
                    old(self).loaded@,
                    keys@.take(i as int),
                ).push(old(self).loaded@[k]));
                assert(keys@.to_set().contains(k));
                assert(!keys@.take(i as int).contains(k));
            }
            match self.loaded.remove(&k) {
                Some(chunk) => {
                    self.pool.push(chunk);
                },
                None => {},
            }
            assert(self.loaded@ =~= old(self).loaded@.remove_keys(keys@.take(i + 1).to_set()));
            i = i + 1;
        }
        assert(keys@.take(keys.len() as int) == keys@);
        assert(self.loaded@ =~= Map::<ChunkCoord, Chunk>::empty());
        assert(self.pool@ == old(self).pool@ + chunks_at(old(self).loaded@, keys@));
    }

    /// Takes a chunk from the pool, or allocates one only when the pool is empty, fills
    /// it with the surface of chunk `c`, and loads it at `c`.
    fn load_chunk<F: Fn(i64, i64) -> i32>(&mut self, c: ChunkCoord, column_total: &F)
        requires
            chunk_in_range(c),
            !old(self).loaded().contains_key(c),
            forall|x: i64, z: i64| column_total.requires((x, z)),
        ensures
            final(self).loaded() == old(self).loaded().insert(c, final(self).loaded()[c]),
            generated_by(*column_total, c, final(self).loaded()[c]),
            old(self).pool().len() > 0 ==> final(self).pool() == old(self).pool().drop_last(),
            old(self).pool().len() == 0 ==> final(self).pool() == old(self).pool(),
    {
        let mut chunk = match self.pool.pop() {
            Some(chunk) => chunk,
            None => Chunk::with_capacity(COLUMNS_PER_CHUNK),
        };
        let totals = column_totals(c, column_total);
        chunk.fill(c, &totals);
        let previous = self.loaded.insert(c, chunk);
        assert(previous is None);
    }

    /// Moves every loaded chunk outside [x0, x1] x [z0, z1], contents intact, into the pool.
    fn unload_outside(&mut self, x0: i64, x1: i64, z0: i64, z1: i64)
        ensures
            forall|k: ChunkCoord|
                #[trigger] final(self).loaded().contains_key(k) <==> (old(self).loaded().contains_key(k)
                    && x0 <= k.0 <= x1 && z0 <= k.1 <= z1),
            forall|k: ChunkCoord|
                #[trigger] final(self).loaded().contains_key(k) ==> final(self).loaded()[k] == old(self).loaded()[k],
            final(self).total() == old(self).total(),
            (forall|k: ChunkCoord|
                #[trigger] old(self).loaded().contains_key(k) ==> x0 <= k.0 <= x1 && z0 <= k.1 <= z1)
                ==> final(self).pool() == old(self).pool(),
            exists|evicted: Seq<ChunkCoord>|
                {
                    &&& evicted.no_duplicates()
                    &&& forall|k: ChunkCoord|
                        #[trigger] evicted.contains(k) <==> (old(self).loaded().contains_key(k)
                            && !(x0 <= k.0 <= x1 && z0 <= k.1 <= z1))
                    &&& final(self).pool() == old(self).pool() + #[trigger] chunks_at(old(self).loaded(), evicted)
                },
    {
        let keys = self.loaded_coords();
        let ghost mut evicted: Seq<ChunkCoord> = Seq::empty();
        let mut i: usize = 0;
        while i < keys.len()
            invariant
                i <= keys.len(),
                keys@.to_set() == old(self).loaded().dom(),
                keys@.no_duplicates(),
                forall|k: ChunkCoord|
                    #[trigger] self.loaded@.contains_key(k) <==> (old(self).loaded@.contains_key(k)
                        && (keys@.take(i as int).contains(k) ==> x0 <= k.0 <= x1 && z0 <= k.1 <= z1)),
                forall|k: ChunkCoord|
                    #[trigger] self.loaded@.contains_key(k) ==> self.loaded@[k] == old(self).loaded@[k],
                self.pool@.len() + self.loaded@.len() == old(self).total(),
                (forall|k: ChunkCoord|
                    #[trigger] old(self).loaded().contains_key(k) ==> x0 <= k.0 <= x1 && z0 <= k.1 <= z1)
                    ==> self.pool@ == old(self).pool@,
                evicted.no_duplicates(),
                forall|k: ChunkCoord|
                    #[trigger] evicted.contains(k) <==> (keys@.take(i as int).contains(k)
                        && !(x0 <= k.0 <= x1 && z0 <= k.1 <= z1)),
                self.pool@ == old(self).pool@ + chunks_at(old(self).loaded@, evicted),
            decreases keys.len() - i,
        {
            let k = keys[i];
            assert(keys@.take(i + 1) == keys@.take(i as int).push(k));
            proof {
                assert(keys@.to_set().contains(k));
                assert(!keys@.take(i as int).contains(k));
                assert forall|j: ChunkCoord|
                    #[trigger] keys@.take(i + 1).contains(j) <==> (keys@.take(i as int).contains(j)
                        || j == k) by {
                    if keys@.take(i + 1).contains(j) {
                        let n = choose|n: int| 0 <= n < i + 1 && #[trigger] keys@.take(i + 1)[n] == j;
                        if n < i {
                            assert(keys@.take(i as int)[n] == j);
                        }
                    }
                    if keys@.take(i as int).contains(j) {
                        let n = choose|n: int| 0 <= n < i && #[trigger] keys@.take(i as int)[n] == j;
                        assert(keys@.take(i + 1)[n] == j);
                    }
                    if j == k {
                        assert(keys@.take(i + 1)[i as int] == j);
                    }
                }
            }
            if !(x0 <= k.0 && k.0 <= x1 && z0 <= k.1 && k.1 <= z1) {
                proof {
                    assert(!evicted.contains(k));
                    assert(chunks_at(old(self).loaded@, evicted.push(k)) =~= chunks_at(
                        old(self).loaded@,
                        evicted,
                    ).push(old(self).loaded@[k]));
                    assert forall|j: ChunkCoord|
                        #[trigger] evicted.push(k).contains(j) <==> (evicted.contains(j) || j == k) by {
                        if evicted.push(k).contains(j) {
                            let n = choose|n: int| 0 <= n < evicted.len() + 1 && #[trigger] evicted.push(k)[n] == j;
                            if n < evicted.len() {
                                assert(evicted[n] == j);
                            }
                        }
                        if evicted.contains(j) {
                            let n = choose|n: int| 0 <= n < evicted.len() && #[trigger] evicted[n] == j;
                            assert(evicted.push(k)[n] == j);
                        }
                        if j == k {
                            assert(evicted.push(k)[evicted.len() as int] == j);
                        }
                    }
                    evicted = evicted.push(k);
                }
                match self.loaded.remove(&k) {
                    Some(chunk) => {
                        self.pool.push(chunk);
                    },
                    None => {},
                }
            }
            i = i + 1;
        }
        assert(keys@.take(keys.len() as int) == keys@);
        assert forall|k: ChunkCoord|
            #[trigger] evicted.contains(k) <==> (old(self).loaded().contains_key(k)
                && !(x0 <= k.0 <= x1 && z0 <= k.1 <= z1)) by {
            if old(self).loaded().contains_key(k) {
                assert(keys@.to_set().contains(k));
            }
        }
    }

    /// Coordinates of the loaded chunks, each once.
    pub fn loaded_coords(&self) -> (r: Vec<ChunkCoord>)
        ensures
            r@.to_set() == self.loaded().dom(),
            r@.no_duplicates(),
    {
        let mut r: Vec<ChunkCoord> = Vec::new();
        for k in it: self.loaded.keys()
            invariant
                r@ == it.seq().take(it.index()).unref(),
                it.seq().unref().to_set() == self.loaded@.dom(),
                it.seq().unref().no_duplicates(),
                it.index() == it.seq().len() ==> r@ == it.seq().unref(),
        {
            r.push(*k);
            assert(r@ =~= it.seq().take(it.index() + 1).unref());
            assert(it.seq().take(it.seq().len() as int) =~= it.seq());
        }
        r
    }

    /// Number of loaded chunks.
    pub fn loaded_count(&self) -> (r: usize)
        ensures
            r == self.loaded().len(),
    {
        self.loaded.len()
    }

    /// Number of pooled chunks.
    pub fn pool_count(&self) -> (r: usize)
        ensures
            r == self.pool().len(),
    {
        self.pool.len()
    }

    /// The loaded chunk at `c`, if any.
    pub fn chunk(&self, c: ChunkCoord) -> (r: Option<&Chunk>)
        ensures
            match r {
                Some(ch) => self.loaded().contains_key(c) && *ch == self.loaded()[c],
                None => !self.loaded().contains_key(c),
            },
    {
        self.loaded.get(&c)
    }
}

/// Chunk `k` of the window comes before position (x, z) of the sweep, which runs
/// z outermost and x innermost, both ascending.
pub open spec fn swept(k: ChunkCoord, x: int, z: int) -> bool {
    k.1 < z || (k.1 == z && k.0 < x)
}

/// Recomputes the window of half-width `view_distance` around chunk `center`: loaded
/// chunks outside it go to the pool, and every chunk of it that is not loaded is
/// generated from the rounded noise totals that `column_total` gives its columns.
pub fn update<F: Fn(i64, i64) -> i32>(
    chunks: &mut Chunks,
    view_distance: usize,
    center: ChunkCoord,
    column_total: &F,
)
    requires
        window_in_range(center, view_distance as int),
        forall|x: i64, z: i64| column_total.requires((x, z)),
    ensures
        is_update(*old(chunks), *final(chunks), view_distance as int, center, *column_total),
{
    let ghost d = view_distance as int;
    let dist = view_distance as i64;
    let x0 = center.0 - dist;
    let x1 = center.0 + dist;
    let z0 = center.1 - dist;
    let z1 = center.1 + dist;
    chunks.unload_outside(x0, x1, z0, z1);
    let ghost mid = *chunks;
    assert(mid.total() == old(chunks).total());
    let ghost evicted = choose|evicted: Seq<ChunkCoord>|
        {
            &&& evicted.no_duplicates()
            &&& forall|k: ChunkCoord|
                #[trigger] evicted.contains(k) <==> (old(chunks).loaded().contains_key(k)
                    && !(x0 <= k.0 <= x1 && z0 <= k.1 <= z1))
            &&& mid.pool() == old(chunks).pool() + #[trigger] chunks_at(old(chunks).loaded(), evicted)
        };
    let mut z = z0;
    while z <= z1
        invariant
            window_in_range(center, d),
            x0 == center.0 - d,
            x1 == center.0 + d,
            z0 == center.1 - d,
            z1 == center.1 + d,
            z0 <= z <= z1 + 1,
            forall|x: i64, z: i64| column_total.requires((x, z)),
            forall|k: ChunkCoord| #[trigger] mid.loaded().contains_key(k) ==> in_window(center, d, k),
            forall|k: ChunkCoord|
                #[trigger] chunks.loaded().contains_key(k) <==> (mid.loaded().contains_key(k)
                    || (in_window(center, d, k) && swept(k, x0 as int, z as int))),
            forall|k: ChunkCoord|
                #[trigger] chunks.loaded().contains_key(k) && mid.loaded().contains_key(k)
                    ==> chunks.loaded()[k] == mid.loaded()[k],
            forall|k: ChunkCoord|
                #[trigger] chunks.loaded().contains_key(k) && !mid.loaded().contains_key(k)
                    ==> generated_by(*column_total, k, chunks.loaded()[k]),
            chunks.total() >= mid.total(),
            chunks.total() > mid.total() ==> chunks.pool().len() == 0,
            mid.loaded().dom() == window(center, d) ==> *chunks == mid,
            chunks.pool().len() <= mid.pool().len(),
            chunks.pool() == mid.pool().take(chunks.pool().len() as int),
        decreases z1 + 1 - z,
    {
        let mut x = x0;
        while x <= x1
            invariant
                window_in_range(center, d),
                x0 == center.0 - d,
                x1 == center.0 + d,
                z0 == center.1 - d,
                z1 == center.1 + d,
                z0 <= z <= z1,
                x0 <= x <= x1 + 1,
                forall|x: i64, z: i64| column_total.requires((x, z)),
                forall|k: ChunkCoord| #[trigger] mid.loaded().contains_key(k) ==> in_window(center, d, k),
                forall|k: ChunkCoord|
                    #[trigger] chunks.loaded().contains_key(k) <==> (mid.loaded().contains_key(k)
                        || (in_window(center, d, k) && swept(k, x as int, z as int))),
                forall|k: ChunkCoord|
                    #[trigger] chunks.loaded().contains_key(k) && mid.loaded().contains_key(k)
                        ==> chunks.loaded()[k] == mid.loaded()[k],
                forall|k: ChunkCoord|
                    #[trigger] chunks.loaded().contains_key(k) && !mid.loaded().contains_key(k)
                        ==> generated_by(*column_total, k, chunks.loaded()[k]),
                chunks.total() >= mid.total(),
                chunks.total() > mid.total() ==> chunks.pool().len() == 0,
                mid.loaded().dom() == window(center, d) ==> *chunks == mid,
                chunks.pool().len() <= mid.pool().len(),
                chunks.pool() == mid.pool().take(chunks.pool().len() as int),
            decreases x1 + 1 - x,
        {
            if !chunks.loaded.contains_key(&(x, z)) {
                proof {
                    if mid.loaded().dom() == window(center, d) {
                        assert(window(center, d).contains((x, z)));
                    }
                }
                chunks.load_chunk((x, z), column_total);
                assert(chunks.pool() =~= mid.pool().take(chunks.pool().len() as int));
            }
            x = x + 1;
        }
        z = z + 1;
    }
    assert(chunks.loaded().dom() =~= window(center, d));
    assert(chunks.total() == if old(chunks).total() >= chunks.loaded().len() {
        old(chunks).total()
    } else {
        chunks.loaded().len()
    });
    assert forall|k: ChunkCoord|
        #[trigger] chunks.loaded().contains_key(k) && old(chunks).loaded().contains_key(k)
            implies chunks.loaded()[k] == old(chunks).loaded()[k] by {
        assert(mid.loaded().contains_key(k));
    }
    assert forall|k: ChunkCoord|
        #[trigger] chunks.loaded().contains_key(k) && !old(chunks).loaded().contains_key(k)
            implies generated_by(*column_total, k, chunks.loaded()[k]) by {
        assert(!mid.loaded().contains_key(k));
    }
    proof {
        if old(chunks).loaded().dom() == window(center, d) {
            assert(mid.loaded() =~= old(chunks).loaded());
            assert(mid.pool() == old(chunks).pool());
        }
        assert forall|k: ChunkCoord|
            #[trigger] evicted.contains(k) <==> (old(chunks).loaded().contains_key(k) && !in_window(
                center,
                d,
                k,
            )) by {}
        assert(chunks.pool() == (old(chunks).pool() + chunks_at(old(chunks).loaded(), evicted)).take(
            chunks.pool().len() as int,
        ));
    }
}

/// Idempotence: a second update with the same view distance, centre and column totals
/// leaves the loaded chunks, contents included, and the pool as the first left them.
pub proof fn lemma_update_idempotent<F: Fn(i64, i64) -> i32>(
    s0: Chunks,
    s1: Chunks,
    s2: Chunks,
    d: int,
    center: ChunkCoord,
    f: F,
)
    requires
        is_update(s0, s1, d, center, f),
        is_update(s1, s2, d, center, f),
    ensures
        s2.loaded() == s1.loaded(),
        s2.pool() == s1.pool(),
{
    assert(s2.loaded() =~= s1.loaded());
}

/// Pool conservation: an update never lowers the number of chunk objects (loaded plus
/// pooled), and it raises it only by allocating when the pool has run dry, so that the
/// pool is empty afterwards.
pub proof fn lemma_update_conserves_chunks<F: Fn(i64, i64) -> i32>(
    s0: Chunks,
    s1: Chunks,
    d: int,
    center: ChunkCoord,
    f: F,
)
    requires
        is_update(s0, s1, d, center, f),
    ensures
        s1.total() >= s0.total(),
        s1.total() > s0.total() ==> s1.pool().len() == 0,
{
}

/// The window law: after an update, exactly the chunks of the square of half-width `d`
/// around `center` are loaded.
pub proof fn lemma_update_loads_window<F: Fn(i64, i64) -> i32>(
    s0: Chunks,
    s1: Chunks,
    d: int,
    center: ChunkCoord,
    f: F,
    k: ChunkCoord,
)
    requires
        is_update(s0, s1, d, center, f),
    ensures
        s1.loaded().contains_key(k) <==> (center.0 - d <= k.0 <= center.0 + d && center.1 - d
            <= k.1 <= center.1 + d),
{
    assert(s1.loaded().dom().contains(k) == window(center, d).contains(k));
}

/// Chunks (x, z) with x0 <= x <= x1 and z0 <= z <= z1.
spec fn rect(x0: int, x1: int, z0: int, z1: int) -> Set<ChunkCoord> {
    Set::new(|k: ChunkCoord| x0 <= k.0 <= x1 && z0 <= k.1 <= z1)
}

proof fn lemma_row_len(x0: int, x1: int, z: int)
    requires
        i64::MIN <= x0 <= x1 + 1,
        x1 <= i64::MAX,
        i64::MIN <= z <= i64::MAX,
    ensures
        rect(x0, x1, z, z).finite(),
        rect(x0, x1, z, z).len() == x1 - x0 + 1,
    decreases x1 - x0 + 1,
{
    if x1 < x0 {
        assert(rect(x0, x1, z, z) =~= Set::empty());
    } else {
        lemma_row_len(x0, x1 - 1, z);
        assert(rect(x0, x1, z, z) =~= rect(x0, x1 - 1, z, z).insert((x1 as i64, z as i64)));
    }
}

proof fn lemma_rect_len(x0: int, x1: int, z0: int, z1: int)
    requires
        i64::MIN <= x0 <= x1 + 1,
        x1 <= i64::MAX,
        i64::MIN <= z0 <= z1 + 1,
        z1 <= i64::MAX,
    ensures
        rect(x0, x1, z0, z1).finite(),
        rect(x0, x1, z0, z1).len() == (x1 - x0 + 1) * (z1 - z0 + 1),
    decreases z1 - z0 + 1,
{
    if z1 < z0 {
        assert(rect(x0, x1, z0, z1) =~= Set::empty());
    } else {
        let lower = rect(x0, x1, z0, z1 - 1);
        let row = rect(x0, x1, z1, z1);
        lemma_rect_len(x0, x1, z0, z1 - 1);
        lemma_row_len(x0, x1, z1);
        assert(rect(x0, x1, z0, z1) =~= lower + row);
        assert(lower.disjoint(row));
        vstd::set_lib::lemma_set_disjoint_lens(lower, row);
        let w = x1 - x0 + 1;
        let h = z1 - z0;
        assert(w * h + w == w * (h + 1)) by (nonlinear_arith);
    }
}

/// The window of half-width `d` holds (2d + 1)^2 chunks.
pub proof fn lemma_window_len(center: ChunkCoord, d: int)
    requires
        window_in_range(center, d),
    ensures
        window(center, d).finite(),
        window(center, d).len() == (2 * d + 1) * (2 * d + 1),
{
    lemma_rect_len(center.0 - d, center.0 + d, center.1 - d, center.1 + d);
    assert(window(center, d) =~= rect(center.0 - d, center.0 + d, center.1 - d, center.1 + d));
}

/// Counts after an update: (2d + 1)^2 chunks are loaded, the number of chunk objects
/// is the larger of the number before and (2d + 1)^2, and the rest of them are pooled.
pub proof fn lemma_update_counts<F: Fn(i64, i64) -> i32>(
    s0: Chunks,
    s1: Chunks,
    d: int,
    center: ChunkCoord,
    f: F,
)
    requires
        window_in_range(center, d),
        is_update(s0, s1, d, center, f),
    ensures
        s1.loaded().len() == (2 * d + 1) * (2 * d + 1),
        s1.total() == if s0.total() >= (2 * d + 1) * (2 * d + 1) {
            s0.total() as int
        } else {
            (2 * d + 1) * (2 * d + 1)
        },
        s1.pool().len() == s1.total() - (2 * d + 1) * (2 * d + 1),
{
    lemma_window_len(center, d);
}

} // verus!
