//! Removal of voxels that have no exposed face, judged from one chunk's own voxels.
use vstd::prelude::*;
use std::collections::BTreeSet;

verus! {

broadcast use vstd::std_specs::btree::group_btree_axioms, vstd::laws_cmp::group_laws_cmp;

/// An integer voxel cell: x, y (height), z.
pub type Position = (i64, i64, i64);

/// Number of cells probed around a voxel: itself and its 26 neighbours.
pub const PROBE_COUNT: usize = 27;

/// Every component leaves room for a step of one in either direction.
pub open spec fn in_probe_range(p: Position) -> bool {
    &&& i64::MIN < p.0 < i64::MAX
    &&& i64::MIN < p.1 < i64::MAX
    &&& i64::MIN < p.2 < i64::MAX
}

pub open spec fn all_in_probe_range(ps: Seq<Position>) -> bool {
    forall|i: int| 0 <= i < ps.len() ==> #[trigger] in_probe_range(ps[i])
}

/// The cell probed at step `k` around `p`. Steps run with z outermost, then y, then x,
/// each offset going from -1 to 1.
pub open spec fn probe_cell(p: Position, k: int) -> Position {
    ((p.0 + (k % 3 - 1)) as i64, (p.1 + ((k / 3) % 3 - 1)) as i64, (p.2 + (k / 9 - 1)) as i64)
}

/// The first probed cell, from step `k` on, that `occupied` does not hold.
pub open spec fn first_free(occupied: Set<Position>, p: Position, k: nat) -> Option<Position>
    decreases 27 - k,
{
    if k >= 27 {
        None
    } else if !occupied.contains(probe_cell(p, k as int)) {
        Some(probe_cell(p, k as int))
    } else {
        first_free(occupied, p, k + 1)
    }
}

/// The occupancy set after the first `n` candidates were probed. It starts as the
/// candidates' own cells; each probe that finds a free cell adds that cell.
pub open spec fn occupancy_after(cands: Seq<Position>, n: nat) -> Set<Position>
    decreases n,
{
    if n == 0 {
        cands.to_set()
    } else {
        let occ = occupancy_after(cands, (n - 1) as nat);
        match first_free(occ, cands[n - 1], 0) {
            Some(c) => occ.insert(c),
            None => occ,
        }
    }
}

/// Candidate `i` stays: its probe found a free cell.
pub open spec fn is_exposed(cands: Seq<Position>, i: int) -> bool {
    first_free(occupancy_after(cands, i as nat), cands[i], 0) is Some
}

/// The exposed candidates among the first `n`, in input order.
pub open spec fn exposed_prefix(cands: Seq<Position>, n: nat) -> Seq<Position>
    decreases n,
{
    if n == 0 {
        Seq::empty()
    } else {
        let r = exposed_prefix(cands, (n - 1) as nat);
        if is_exposed(cands, n - 1) {
            r.push(cands[n - 1])
        } else {
            r
        }
    }
}

/// What the filter keeps of `cands`.
pub open spec fn exposed_voxels(cands: Seq<Position>) -> Seq<Position> {
    exposed_prefix(cands, cands.len())
}

/// Probes the cells around `p` in order; the first one not in `occupied` is added to it,
/// and the result says whether such a cell was found.
fn probe_and_mark(occupied: &mut BTreeSet<Position>, p: Position) -> (exposed: bool)
    requires
        in_probe_range(p),
    ensures
        match first_free(old(occupied)@, p, 0) {
            Some(c) => exposed && final(occupied)@ == old(occupied)@.insert(c),
            None => !exposed && final(occupied)@ == old(occupied)@,
        },
{
    let mut k: usize = 0;
    while k < PROBE_COUNT
        invariant
            k <= PROBE_COUNT,
            in_probe_range(p),
            occupied@ == old(occupied)@,
            first_free(occupied@, p, 0) == first_free(occupied@, p, k as nat),
        decreases PROBE_COUNT - k,
    {
        let dx: i64 = (k % 3) as i64 - 1;
        let dy: i64 = ((k / 3) % 3) as i64 - 1;
        let dz: i64 = (k / 9) as i64 - 1;
        let cell: Position = (p.0 + dx, p.1 + dy, p.2 + dz);
        assert(cell == probe_cell(p, k as int));
        if occupied.insert(cell) {
            return true;
        }
        assert(occupied@ =~= old(occupied)@);
        assert(first_free(occupied@, p, k as nat) == first_free(occupied@, p, (k + 1) as nat));
        k = k + 1;
    }
    false
}

/// Writes into `kept` (its old contents discarded, its storage reused) the candidates
/// that have an exposed face, in input order.
///
/// The occupancy set holds the candidates' cells and grows as probes mark the free
/// cells they find, so a voxel next to the chunk's edge always finds a free cell:
/// voxels of neighbouring chunks are never consulted.
pub fn cull_hidden(cands: &Vec<Position>, kept: &mut Vec<Position>)
    requires
        all_in_probe_range(cands@),
    ensures
        final(kept)@ == exposed_voxels(cands@),
{
    let mut occupied: BTreeSet<Position> = BTreeSet::new();
    let mut i: usize = 0;
    while i < cands.len()
        invariant
            i <= cands.len(),
            occupied@ == cands@.take(i as int).to_set(),
        decreases cands.len() - i,
    {
        occupied.insert(cands[i]);
        assert(cands@.take(i + 1) == cands@.take(i as int).push(cands@[i as int]));
        proof {
            cands@.take(i as int).lemma_push_to_set_commute(cands@[i as int]);
        }
        i = i + 1;
    }
    assert(cands@.take(cands.len() as int) == cands@);
    kept.clear();
    let mut i: usize = 0;
    while i < cands.len()
        invariant
            i <= cands.len(),
            all_in_probe_range(cands@),
            occupied@ == occupancy_after(cands@, i as nat),
            kept@ == exposed_prefix(cands@, i as nat),
        decreases cands.len() - i,
    {
        let p = cands[i];
        assert(in_probe_range(cands@[i as int]));
        if probe_and_mark(&mut occupied, p) {
            kept.push(p);
        }
        i = i + 1;
    }
}

proof fn lemma_occupancy_grows(cands: Seq<Position>, n: nat)
    ensures
        cands.to_set().subset_of(occupancy_after(cands, n)),
    decreases n,
{
    if n > 0 {
        lemma_occupancy_grows(cands, (n - 1) as nat);
    }
}

proof fn lemma_first_free_none(occupied: Set<Position>, p: Position, k: nat)
    requires
        forall|j: int| k <= j < 27 ==> occupied.contains(#[trigger] probe_cell(p, j)),
    ensures
        first_free(occupied, p, k) is None,
    decreases 27 - k,
{
    if k < 27 {
        assert(occupied.contains(probe_cell(p, k as int)));
        lemma_first_free_none(occupied, p, k + 1);
    }
}

proof fn lemma_prefix_excludes(cands: Seq<Position>, n: nat, v: Position)
    requires
        n <= cands.len(),
        forall|j: int| 0 <= j < n && cands[j] == v ==> !#[trigger] is_exposed(cands, j),
    ensures
        !exposed_prefix(cands, n).contains(v),
    decreases n,
{
    if n > 0 {
        lemma_prefix_excludes(cands, (n - 1) as nat, v);
        let r = exposed_prefix(cands, (n - 1) as nat);
        if is_exposed(cands, n - 1) {
            assert forall|j: int| 0 <= j < r.len() + 1 implies #[trigger] r.push(cands[n - 1])[j] != v by {
                if j < r.len() {
                    assert(r.push(cands[n - 1])[j] == r[j]);
                }
            }
        }
    }
}

/// A voxel whose cell and 26 neighbouring cells are all among the candidates has no
/// exposed face: the filter removes it.
pub proof fn lemma_enclosed_voxel_removed(cands: Seq<Position>, v: Position)
    requires
        forall|k: int| 0 <= k < 27 ==> cands.contains(#[trigger] probe_cell(v, k)),
    ensures
        !exposed_voxels(cands).contains(v),
{
    assert forall|j: int| 0 <= j < cands.len() && cands[j] == v implies !#[trigger] is_exposed(
        cands,
        j,
    ) by {
        let occ = occupancy_after(cands, j as nat);
        lemma_occupancy_grows(cands, j as nat);
        assert forall|m: int| 0 <= m < 27 implies occ.contains(#[trigger] probe_cell(v, m)) by {
            assert(cands.contains(probe_cell(v, m)));
            assert(cands.to_set().contains(probe_cell(v, m)));
        }
        lemma_first_free_none(occ, v, 0);
    }
    lemma_prefix_excludes(cands, cands.len(), v);
}

} // verus!
