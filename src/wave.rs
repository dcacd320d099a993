//! The wave grid: per-cell candidate sets, constraint propagation, weighted
//! collapse and the backtracking search that turns them into a chunk.
use vstd::prelude::*;
use crate::chunk::{Chunk, ChunkId, ChunkView};
use crate::dir::Dir;
use crate::sampling::{TileRng, random_by_weight, spec_sum, lemma_sum_nonneg, lemma_sum_step, lemma_sum_prefix_le};
use crate::tile::{AdjRuleSet, AdjacencyRules, Tile, TileID, Tiles, spec_weights};
use crate::util::{coords_of, index_of, lemma_coords_round_trip, lemma_neighbor_symmetric, spec_coords, spec_neighbor};
use crate::{CHUNK_HIGHT, CHUNK_SIZE};

verus! {

/// What is known of one cell while the chunk is generated.
enum WaveState {
    /// The cell holds this tile variant.
    Collapsed(TileID),
    /// The cell may still hold each variant whose flag is set.
    Superpos(Vec<bool>),
    /// No variant may occupy the cell's layer: the cell stays empty.
    Uncovered,
}

/// The mathematical content of a cell.
enum Cell {
    Collapsed(int),
    Superpos(Seq<bool>),
    Uncovered,
}

impl View for WaveState {
    type V = Cell;

    closed spec fn view(&self) -> Cell {
        match self {
            WaveState::Collapsed(t) => Cell::Collapsed(t.0 as int),
            WaveState::Superpos(m) => Cell::Superpos(m@),
            WaveState::Uncovered => Cell::Uncovered,
        }
    }
}

/// The number of set flags.
spec fn mask_count(m: Seq<bool>) -> nat
    decreases m.len(),
{
    if m.len() == 0 {
        0
    } else {
        mask_count(m.drop_last()) + if m.last() {
            1nat
        } else {
            0nat
        }
    }
}

spec fn cell_count(c: Cell) -> nat {
    match c {
        Cell::Superpos(m) => mask_count(m),
        _ => 0,
    }
}

/// The number of candidates left over all undecided cells.
spec fn wave_count(w: Seq<Cell>) -> nat
    decreases w.len(),
{
    if w.len() == 0 {
        0
    } else {
        wave_count(w.drop_last()) + cell_count(w.last())
    }
}

spec fn cells_of(w: Seq<WaveState>) -> Seq<Cell> {
    w.map_values(|c: WaveState| c@)
}

/// Each cell speaks of `n` variants.
spec fn cells_wf(w: Seq<Cell>, n: int) -> bool {
    forall|i: int|
        0 <= i < w.len() ==> match #[trigger] w[i] {
            Cell::Superpos(m) => m.len() == n,
            Cell::Collapsed(t) => 0 <= t < n,
            Cell::Uncovered => true,
        }
}

/// Cell `b` is cell `a` with candidates removed, or the same decided cell.
spec fn narrows_cell(a: Cell, b: Cell) -> bool {
    match a {
        Cell::Superpos(m) => b is Superpos && b->Superpos_0.len() == m.len() && forall|k: int|
            0 <= k < m.len() && #[trigger] b->Superpos_0[k] ==> m[k],
        _ => b == a,
    }
}

/// Cell `b` narrows cell `a`, or decides it for one of its candidates.
spec fn refines_cell(a: Cell, b: Cell) -> bool {
    ||| narrows_cell(a, b)
    ||| (a is Superpos && b is Collapsed && 0 <= b->Collapsed_0 < a->Superpos_0.len()
        && a->Superpos_0[b->Collapsed_0])
}

spec fn narrows(a: Seq<Cell>, b: Seq<Cell>) -> bool {
    a.len() == b.len() && forall|i: int| 0 <= i < a.len() ==> narrows_cell(#[trigger] a[i], b[i])
}

spec fn refines(a: Seq<Cell>, b: Seq<Cell>) -> bool {
    a.len() == b.len() && forall|i: int| 0 <= i < a.len() ==> refines_cell(#[trigger] a[i], b[i])
}

/// No cell holds, or may hold, a variant outside its layer's range.
spec fn levels_ok(w: Seq<Cell>, tiles: Seq<Tile>, size: int) -> bool {
    forall|i: int|
        0 <= i < w.len() ==> match #[trigger] w[i] {
            Cell::Superpos(m) => forall|b: int|
                0 <= b < m.len() && #[trigger] m[b] ==> b < tiles.len() && tiles[b].spec_level_allows(
                    spec_coords(size, i).1,
                ),
            Cell::Collapsed(t) => 0 <= t < tiles.len() && tiles[t].spec_level_allows(spec_coords(size, i).1),
            Cell::Uncovered => true,
        }
}

/// Cell `c`, seen from a neighbour holding variant `t` in direction `d`, holds
/// or may hold only variants that `t` allows there.
spec fn admits(rules: Seq<AdjacencyRules>, t: int, d: Dir, c: Cell) -> bool {
    match c {
        Cell::Collapsed(u) => AdjRuleSet::spec_allows_seq(rules, t, d, u),
        Cell::Superpos(m) => forall|b: int|
            0 <= b < m.len() && #[trigger] m[b] ==> AdjRuleSet::spec_allows_seq(rules, t, d, b),
        Cell::Uncovered => true,
    }
}

/// Every neighbour of every decided cell is admitted by it.
spec fn consistent(w: Seq<Cell>, rules: Seq<AdjacencyRules>, size: int, height: int) -> bool {
    forall|p: int, d: Dir|
        0 <= p < w.len() && #[trigger] w[p] is Collapsed && spec_neighbor(size, height, p, d) is Some
            ==> admits(rules, w[p]->Collapsed_0, d, #[trigger] w[spec_neighbor(size, height, p, d)->0])
}

spec fn all_collapsed(w: Seq<Cell>) -> bool {
    forall|i: int| 0 <= i < w.len() ==> !(#[trigger] w[i] is Superpos)
}

proof fn lemma_mask_count_step(m: Seq<bool>, i: int)
    requires
        0 <= i < m.len(),
    ensures
        mask_count(m.subrange(0, i + 1)) == mask_count(m.subrange(0, i)) + if m[i] {
            1nat
        } else {
            0nat
        },
{
    assert(m.subrange(0, i + 1).drop_last() =~= m.subrange(0, i));
}

/// Removing flags lowers the count; removing at least one lowers it strictly.
proof fn lemma_mask_count_le(a: Seq<bool>, b: Seq<bool>)
    requires
        a.len() == b.len(),
        forall|k: int| 0 <= k < a.len() && #[trigger] b[k] ==> a[k],
    ensures
        mask_count(b) <= mask_count(a),
        (exists|k: int| 0 <= k < a.len() && a[k] && !#[trigger] b[k]) ==> mask_count(b) < mask_count(a),
    decreases a.len(),
{
    if a.len() > 0 {
        let a2 = a.drop_last();
        let b2 = b.drop_last();
        assert forall|k: int| 0 <= k < a2.len() && #[trigger] b2[k] implies a2[k] by {
            assert(b[k]);
        }
        lemma_mask_count_le(a2, b2);
        if exists|k: int| 0 <= k < a.len() && a[k] && !#[trigger] b[k] {
            let k = choose|k: int| 0 <= k < a.len() && a[k] && !#[trigger] b[k];
            if k < a.len() - 1 {
                assert(a2[k] && !b2[k]);
            }
        }
    }
}

proof fn lemma_mask_count_positive(m: Seq<bool>, k: int)
    requires
        0 <= k < m.len(),
        m[k],
    ensures
        mask_count(m) > 0,
{
    lemma_mask_count_le(m, Seq::new(m.len(), |i: int| false));
    assert(!Seq::new(m.len(), |i: int| false)[k]);
}

/// Replacing one cell changes the total by the difference of the two counts.
proof fn lemma_wave_count_update(w: Seq<Cell>, i: int, c: Cell)
    requires
        0 <= i < w.len(),
    ensures
        wave_count(w.update(i, c)) + cell_count(w[i]) == wave_count(w) + cell_count(c),
    decreases w.len(),
{
    let u = w.update(i, c);
    if i == w.len() - 1 {
        assert(u.drop_last() =~= w.drop_last());
    } else {
        assert(u.drop_last() =~= w.drop_last().update(i, c));
        lemma_wave_count_update(w.drop_last(), i, c);
    }
}

/// Refining a wave never adds candidates.
proof fn lemma_wave_count_refines(a: Seq<Cell>, b: Seq<Cell>)
    requires
        refines(a, b),
    ensures
        wave_count(b) <= wave_count(a),
    decreases a.len(),
{
    if a.len() > 0 {
        let i = a.len() - 1;
        assert(refines_cell(a[i], b[i]));
        if a[i] is Superpos && b[i] is Superpos {
            lemma_mask_count_le(a[i]->Superpos_0, b[i]->Superpos_0);
        }
        assert(refines(a.drop_last(), b.drop_last())) by {
            assert forall|j: int| 0 <= j < a.drop_last().len() implies refines_cell(
                #[trigger] a.drop_last()[j],
                b.drop_last()[j],
            ) by {
                assert(refines_cell(a[j], b[j]));
            }
        }
        lemma_wave_count_refines(a.drop_last(), b.drop_last());
    }
}

proof fn lemma_refines_trans(a: Seq<Cell>, b: Seq<Cell>, c: Seq<Cell>)
    requires
        refines(a, b),
        refines(b, c),
    ensures
        refines(a, c),
{
    assert forall|i: int| 0 <= i < a.len() implies refines_cell(#[trigger] a[i], c[i]) by {
        assert(refines_cell(a[i], b[i]));
        assert(refines_cell(b[i], c[i]));
    }
}

proof fn lemma_narrows_refines(a: Seq<Cell>, b: Seq<Cell>)
    requires
        narrows(a, b),
    ensures
        refines(a, b),
{
    assert forall|i: int| 0 <= i < a.len() implies refines_cell(#[trigger] a[i], b[i]) by {
        assert(narrows_cell(a[i], b[i]));
    }
}

proof fn lemma_narrows_trans(a: Seq<Cell>, b: Seq<Cell>, c: Seq<Cell>)
    requires
        narrows(a, b),
        narrows(b, c),
    ensures
        narrows(a, c),
{
    assert forall|i: int| 0 <= i < a.len() implies narrows_cell(#[trigger] a[i], c[i]) by {
        assert(narrows_cell(a[i], b[i]));
        assert(narrows_cell(b[i], c[i]));
    }
}

/// The number of set flags.
fn mask_len(m: &Vec<bool>) -> (r: usize)
    ensures
        r == mask_count(m@),
{
    let mut count: usize = 0;
    let mut i: usize = 0;
    while i < m.len()
        invariant
            0 <= i <= m@.len(),
            count == mask_count(m@.subrange(0, i as int)),
            count <= i,
        decreases m@.len() - i,
    {
        proof {
            lemma_mask_count_step(m@, i as int);
        }
        if m[i] {
            count += 1;
        }
        i += 1;
    }
    proof {
        assert(m@.subrange(0, i as int) =~= m@);
    }
    count
}

fn copy_mask(m: &Vec<bool>) -> (r: Vec<bool>)
    ensures
        r@ == m@,
{
    let mut r: Vec<bool> = Vec::new();
    let mut i: usize = 0;
    while i < m.len()
        invariant
            0 <= i <= m@.len(),
            r@ == m@.subrange(0, i as int),
        decreases m@.len() - i,
    {
        r.push(m[i]);
        i += 1;
        proof {
            assert(r@ =~= m@.subrange(0, i as int));
        }
    }
    proof {
        assert(m@.subrange(0, i as int) =~= m@);
    }
    r
}

fn copy_cell(c: &WaveState) -> (r: WaveState)
    ensures
        r@ == c@,
{
    match c {
        WaveState::Collapsed(t) => WaveState::Collapsed(*t),
        WaveState::Superpos(m) => WaveState::Superpos(copy_mask(m)),
        WaveState::Uncovered => WaveState::Uncovered,
    }
}

/// A deep copy of the wave, for restoring after a failed branch.
fn copy_wave(w: &Vec<WaveState>) -> (r: Vec<WaveState>)
    ensures
        cells_of(r@) == cells_of(w@),
{
    let mut r: Vec<WaveState> = Vec::new();
    let mut i: usize = 0;
    while i < w.len()
        invariant
            0 <= i <= w@.len(),
            r@.len() == i,
            forall|j: int| 0 <= j < i ==> #[trigger] r@[j]@ == w@[j]@,
        decreases w@.len() - i,
    {
        r.push(copy_cell(&w[i]));
        i += 1;
    }
    proof {
        assert(cells_of(r@) =~= cells_of(w@));
    }
    r
}

/// Narrowing a cell keeps it admitted by a decided neighbour.
proof fn lemma_admits_narrows(rules: Seq<AdjacencyRules>, t: int, d: Dir, a: Cell, b: Cell)
    requires
        admits(rules, t, d, a),
        narrows_cell(a, b),
    ensures
        admits(rules, t, d, b),
{
    if a is Superpos {
        assert forall|k: int|
            0 <= k < b->Superpos_0.len() && #[trigger] b->Superpos_0[k] implies AdjRuleSet::spec_allows_seq(
            rules,
            t,
            d,
            k,
        ) by {
            assert(a->Superpos_0[k]);
        }
    }
}

/// Why a step of the generation failed.
#[derive(Debug, Clone, Copy, PartialEq, Eq, Structural)]
enum WaveError {
    /// No undecided cell is left to choose from.
    NoLowestEntropy,
    /// The chosen cell was already decided.
    AlreadyCollapsed,
    /// The chosen cell has no candidate of positive weight.
    NoCandidate,
    /// Some undecided cell has no candidate left.
    ZeroEntropy,
    /// Every choice at this point led to a contradiction.
    NoSolution,
}

/// The sum of the weights of the flagged variants.
spec fn masked_weight(m: Seq<bool>, w: Seq<usize>) -> int
    decreases m.len(),
{
    if m.len() == 0 {
        0
    } else {
        masked_weight(m.drop_last(), w) + if m.last() {
            w[m.len() - 1] as int
        } else {
            0
        }
    }
}

/// Whether some tile variant may occupy layer `y`.
pub open spec fn spec_layer_covered(tiles: Seq<Tile>, y: int) -> bool {
    exists|b: int| 0 <= b < tiles.len() && #[trigger] tiles[b].spec_level_allows(y)
}

/// Every two neighbouring cells of the chunk that both hold a tile variant
/// hold a pair that the rules allow.
pub open spec fn spec_chunk_consistent(rules: Seq<AdjacencyRules>, c: ChunkView) -> bool {
    forall|p: int, d: Dir|
        0 <= p < c.tiles.len() && c.tiles[p] is Some && #[trigger] spec_neighbor(c.size, c.height, p, d) is Some
            && c.tiles[spec_neighbor(c.size, c.height, p, d)->0] is Some ==> AdjRuleSet::spec_allows_seq(
            rules,
            (c.tiles[p]->0).0 as int,
            d,
            (c.tiles[spec_neighbor(c.size, c.height, p, d)->0]->0).0 as int,
        )
}

proof fn lemma_masked_weight_step(m: Seq<bool>, w: Seq<usize>, i: int)
    requires
        0 <= i < m.len(),
    ensures
        masked_weight(m.subrange(0, i + 1), w) == masked_weight(m.subrange(0, i), w) + if m[i] {
            w[i] as int
        } else {
            0
        },
{
    assert(m.subrange(0, i + 1).drop_last() =~= m.subrange(0, i));
}

/// Refining keeps every cell within its layer's range.
proof fn lemma_levels_refines(a: Seq<Cell>, b: Seq<Cell>, tiles: Seq<Tile>, size: int)
    requires
        levels_ok(a, tiles, size),
        refines(a, b),
    ensures
        levels_ok(b, tiles, size),
{
    assert forall|i: int| 0 <= i < b.len() implies match #[trigger] b[i] {
        Cell::Superpos(m) => forall|k: int|
            0 <= k < m.len() && #[trigger] m[k] ==> k < tiles.len() && tiles[k].spec_level_allows(
                spec_coords(size, i).1,
            ),
        Cell::Collapsed(t) => 0 <= t < tiles.len() && tiles[t].spec_level_allows(spec_coords(size, i).1),
        Cell::Uncovered => true,
    } by {
        assert(refines_cell(a[i], b[i]));
        assert(match a[i] {
            Cell::Superpos(m) => forall|k: int|
                0 <= k < m.len() && #[trigger] m[k] ==> k < tiles.len() && tiles[k].spec_level_allows(
                    spec_coords(size, i).1,
                ),
            Cell::Collapsed(t) => 0 <= t < tiles.len() && tiles[t].spec_level_allows(spec_coords(size, i).1),
            Cell::Uncovered => true,
        });
        if a[i] is Superpos && b[i] is Superpos {
            assert forall|k: int|
                0 <= k < b[i]->Superpos_0.len() && #[trigger] b[i]->Superpos_0[k] implies k < tiles.len()
                && tiles[k].spec_level_allows(spec_coords(size, i).1) by {
                assert(a[i]->Superpos_0[k]);
            }
        }
    }
}

/// Deciding cell `pos` for one of its candidates and then narrowing its
/// undecided neighbours to what that candidate allows keeps every decided
/// cell's neighbours admitted, when the rules are symmetric.
proof fn lemma_collapse_consistent(
    w0: Seq<Cell>,
    w1: Seq<Cell>,
    w2: Seq<Cell>,
    rules: Seq<AdjacencyRules>,
    size: int,
    height: int,
    pos: int,
    t: int,
)
    requires
        AdjRuleSet::spec_symmetric_seq(rules),
        consistent(w0, rules, size, height),
        size > 0,
        height >= 0,
        w0.len() == size * size * height,
        0 <= pos < w0.len(),
        w0[pos] is Superpos,
        0 <= t < w0[pos]->Superpos_0.len(),
        w0[pos]->Superpos_0[t],
        w1 == w0.update(pos, Cell::Collapsed(t)),
        narrows(w1, w2),
        forall|d: Dir|
            #![trigger spec_neighbor(size, height, pos, d)]
            spec_neighbor(size, height, pos, d) is Some && w2[spec_neighbor(size, height, pos, d)->0] is Superpos
                ==> admits(rules, t, d, w2[spec_neighbor(size, height, pos, d)->0]),
    ensures
        consistent(w2, rules, size, height),
{
    assert forall|p: int, d: Dir|
        0 <= p < w2.len() && #[trigger] w2[p] is Collapsed && spec_neighbor(size, height, p, d) is Some
        implies admits(rules, w2[p]->Collapsed_0, d, #[trigger] w2[spec_neighbor(size, height, p, d)->0]) by {
        let q = spec_neighbor(size, height, p, d)->0;
        lemma_neighbor_symmetric(size, height, p, d);
        assert(narrows_cell(w1[p], w2[p]));
        assert(narrows_cell(w1[q], w2[q]));
        assert(w1[p] == w2[p]);
        if p == pos {
            if w2[q] is Collapsed {
                let u = w2[q]->Collapsed_0;
                assert(w0[q] == w1[q]);
                assert(spec_neighbor(size, height, q, d.spec_opposite()) == Some(pos));
                assert(w0[q] is Collapsed);
                assert(w0[spec_neighbor(size, height, q, d.spec_opposite())->0] == w0[pos]);
                assert(admits(rules, u, d.spec_opposite(), w0[pos]));
                assert(AdjRuleSet::spec_allows_seq(rules, u, d.spec_opposite(), t));
                crate::dir::lemma_opposite_involution(d);
                assert(AdjRuleSet::spec_allows_seq(rules, t, d.spec_opposite().spec_opposite(), u));
            }
        } else {
            assert(w0[p] == w1[p]);
            assert(admits(rules, w0[p]->Collapsed_0, d, w0[q]));
            if q == pos {
                assert(w2[q] == Cell::Collapsed(t));
            } else {
                assert(w0[q] == w1[q]);
                lemma_admits_narrows(rules, w0[p]->Collapsed_0, d, w1[q], w2[q]);
            }
        }
    }
}

/// Whether variant `a` is, or may still be, in cell `c`.
spec fn possible(c: Cell, a: int) -> bool {
    match c {
        Cell::Collapsed(t) => a == t,
        Cell::Superpos(m) => 0 <= a < m.len() && m[a],
        Cell::Uncovered => false,
    }
}

/// No undecided cell is empty, and whatever two neighbouring cells hold or
/// may hold, the rules allow the pair: nothing is left to remove.
spec fn no_conflict(w: Seq<Cell>, rules: Seq<AdjacencyRules>, size: int, height: int) -> bool {
    &&& forall|i: int| 0 <= i < w.len() && #[trigger] w[i] is Superpos ==> exists|b: int| possible(w[i], b)
    &&& forall|p: int, d: Dir, a: int, b: int|
        0 <= p < w.len() && spec_neighbor(size, height, p, d) is Some
            && 0 <= spec_neighbor(size, height, p, d)->0 < w.len() && #[trigger] possible(w[p], a)
            && #[trigger] possible(w[spec_neighbor(size, height, p, d)->0], b)
            ==> AdjRuleSet::spec_allows_seq(rules, a, d, b)
}

/// Every weight is positive, and any variant that may occupy a cell's layer
/// fits next to any variant that may occupy a neighbouring cell's layer, in
/// the direction from the one cell to the other.
pub open spec fn spec_unconstrained(tiles: Seq<Tile>, rules: Seq<AdjacencyRules>, size: int, height: int) -> bool {
    &&& forall|b: int| 0 <= b < tiles.len() ==> #[trigger] tiles[b].weight > 0
    &&& forall|p: int, d: Dir, a: int, b: int|
        0 <= p < size * size * height && spec_neighbor(size, height, p, d) is Some && 0 <= a < tiles.len()
            && 0 <= b < tiles.len() && #[trigger] tiles[a].spec_level_allows(spec_coords(size, p).1)
            && #[trigger] tiles[b].spec_level_allows(spec_coords(size, spec_neighbor(size, height, p, d)->0).1)
            ==> AdjRuleSet::spec_allows_seq(rules, a, d, b)
}

/// A flagged variant of positive weight gives a positive total.
proof fn lemma_masked_weight_positive(m: Seq<bool>, w: Seq<usize>, k: int)
    requires
        0 <= k < m.len(),
        m.len() <= w.len(),
        m[k],
        w[k] > 0,
    ensures
        masked_weight(m, w) > 0,
    decreases m.len(),
{
    lemma_masked_weight_nonneg(m.drop_last(), w);
    if k < m.len() - 1 {
        lemma_masked_weight_positive(m.drop_last(), w, k);
    }
}

proof fn lemma_masked_weight_nonneg(m: Seq<bool>, w: Seq<usize>)
    ensures
        masked_weight(m, w) >= 0,
    decreases m.len(),
{
    if m.len() > 0 {
        lemma_masked_weight_nonneg(m.drop_last(), w);
    }
}

/// Deciding a cell for one of its candidates keeps a wave free of conflicts.
proof fn lemma_collapse_no_conflict(
    w0: Seq<Cell>,
    rules: Seq<AdjacencyRules>,
    size: int,
    height: int,
    pos: int,
    t: int,
)
    requires
        no_conflict(w0, rules, size, height),
        0 <= pos < w0.len(),
        possible(w0[pos], t),
    ensures
        no_conflict(w0.update(pos, Cell::Collapsed(t)), rules, size, height),
{
    let w1 = w0.update(pos, Cell::Collapsed(t));
    assert forall|i: int| 0 <= i < w1.len() && #[trigger] w1[i] is Superpos implies exists|b: int| possible(w1[i], b) by {
        assert(w0[i] is Superpos);
        let b = choose|b: int| possible(w0[i], b);
        assert(possible(w1[i], b));
    }
    assert forall|p: int, d: Dir, a: int, b: int|
        0 <= p < w1.len() && spec_neighbor(size, height, p, d) is Some
            && 0 <= spec_neighbor(size, height, p, d)->0 < w1.len() && #[trigger] possible(w1[p], a)
            && #[trigger] possible(w1[spec_neighbor(size, height, p, d)->0], b)
        implies AdjRuleSet::spec_allows_seq(rules, a, d, b) by {
        let q = spec_neighbor(size, height, p, d)->0;
        assert(possible(w0[p], a));
        assert(possible(w0[q], b));
    }
}

/// Position of a direction in the order of `Dir::spec_all`.
spec fn dir_index(d: Dir) -> int {
    match d {
        Dir::Forward => 0,
        Dir::Backward => 1,
        Dir::Left => 2,
        Dir::Right => 3,
        Dir::Up => 4,
        Dir::Down => 5,
    }
}

/// The arc from cell `p` in direction `d` is consistent: each candidate of
/// the undecided neighbour there is allowed by something `p` holds or may
/// hold.
#[verifier::opaque]
spec fn arc_ok(w: Seq<Cell>, rules: Seq<AdjacencyRules>, size: int, height: int, p: int, d: Dir) -> bool {
    0 <= p < w.len() && spec_neighbor(size, height, p, d) is Some
        && 0 <= spec_neighbor(size, height, p, d)->0 < w.len() && !(w[p] is Uncovered)
        && w[spec_neighbor(size, height, p, d)->0] is Superpos ==> forall|b: int|
        0 <= b < w[spec_neighbor(size, height, p, d)->0]->Superpos_0.len()
            && #[trigger] w[spec_neighbor(size, height, p, d)->0]->Superpos_0[b] ==> exists|a: int|
            possible(w[p], a) && AdjRuleSet::spec_allows_seq(rules, a, d, b)
}

/// Every arc of the wave is consistent.
spec fn arc_consistent(w: Seq<Cell>, rules: Seq<AdjacencyRules>, size: int, height: int) -> bool {
    forall|p: int, d: Dir| 0 <= p < w.len() ==> #[trigger] arc_ok(w, rules, size, height, p, d)
}

spec fn on_stack(s: Seq<usize>, p: int) -> bool {
    exists|k: int| 0 <= k < s.len() && s[k] as int == p
}

/// The work list invariant of propagation: every arc that was consistent at
/// the start, or leads out of `pos`, is consistent now, or its cell waits on
/// the stack, or it is an arc of `cur` not yet visited.
spec fn arcs_claim(
    start: Seq<Cell>,
    w: Seq<Cell>,
    s: Seq<usize>,
    rules: Seq<AdjacencyRules>,
    size: int,
    height: int,
    pos: int,
    cur: int,
    k: int,
) -> bool {
    forall|p: int, d: Dir|
        #![trigger arc_ok(start, rules, size, height, p, d)]
        #![trigger arc_ok(w, rules, size, height, p, d)]
        0 <= p < w.len() && (arc_ok(start, rules, size, height, p, d) || p == pos) ==> arc_ok(
            w,
            rules,
            size,
            height,
            p,
            d,
        ) || on_stack(s, p) || (p == cur && dir_index(d) >= k)
}

/// Assignment `a` (one variant per cell) fits the wave: each covered cell
/// holds or may hold its variant.
spec fn fits(w: Seq<Cell>, a: Seq<int>) -> bool {
    &&& a.len() == w.len()
    &&& forall|p: int| 0 <= p < w.len() && !(w[p] is Uncovered) ==> #[trigger] possible(w[p], a[p])
}

/// Assignment `a` obeys the rules between every two neighbouring covered cells.
spec fn obeys(w: Seq<Cell>, a: Seq<int>, rules: Seq<AdjacencyRules>, size: int, height: int) -> bool {
    forall|p: int, d: Dir|
        0 <= p < w.len() && #[trigger] spec_neighbor(size, height, p, d) is Some
            && 0 <= spec_neighbor(size, height, p, d)->0 < w.len() && !(w[p] is Uncovered)
            && !(w[spec_neighbor(size, height, p, d)->0] is Uncovered) ==> AdjRuleSet::spec_allows_seq(
            rules,
            a[p],
            d,
            a[spec_neighbor(size, height, p, d)->0],
        )
}

/// Every rule-obeying assignment that fits `start` fits `w`.
spec fn keeps_solutions(start: Seq<Cell>, w: Seq<Cell>, rules: Seq<AdjacencyRules>, size: int, height: int) -> bool {
    forall|a: Seq<int>| fits(start, a) && obeys(start, a, rules, size, height) ==> #[trigger] fits(w, a)
}

/// The flags that `allowed_from` computes for a covered cell `c` are exactly
/// the variants some possibility of `c` allows.
proof fn lemma_allowed_possible(c: Cell, allowed: Seq<bool>, rules: Seq<AdjacencyRules>, d: Dir, n: int)
    requires
        !(c is Uncovered),
        c is Superpos ==> c->Superpos_0.len() == n,
        c is Collapsed ==> 0 <= c->Collapsed_0 < n,
        allowed.len() == n,
        forall|b: int|
            0 <= b < n ==> #[trigger] allowed[b] == match c {
                Cell::Collapsed(t) => AdjRuleSet::spec_allows_seq(rules, t, d, b),
                Cell::Superpos(ms) => exists|a: int| 0 <= a < n && ms[a] && AdjRuleSet::spec_allows_seq(rules, a, d, b),
                Cell::Uncovered => false,
            },
    ensures
        forall|b: int|
            0 <= b < n ==> (#[trigger] allowed[b] <==> exists|a: int|
                possible(c, a) && AdjRuleSet::spec_allows_seq(rules, a, d, b)),
{
    assert forall|b: int| 0 <= b < n implies (#[trigger] allowed[b] <==> exists|a: int|
        possible(c, a) && AdjRuleSet::spec_allows_seq(rules, a, d, b)) by {
        match c {
            Cell::Collapsed(t) => {
                if allowed[b] {
                    assert(possible(c, t));
                }
            },
            Cell::Superpos(ms) => {
                if allowed[b] {
                    let a = choose|a: int| 0 <= a < n && ms[a] && AdjRuleSet::spec_allows_seq(rules, a, d, b);
                    assert(possible(c, a));
                }
                if exists|a: int| possible(c, a) && AdjRuleSet::spec_allows_seq(rules, a, d, b) {
                    let a = choose|a: int| possible(c, a) && AdjRuleSet::spec_allows_seq(rules, a, d, b);
                    assert(0 <= a < n && ms[a]);
                }
            },
            Cell::Uncovered => {},
        }
    }
}

/// Narrowing one undecided cell `q` keeps every arc not leaving `q` consistent.
proof fn lemma_arc_after_narrow(
    before: Seq<Cell>,
    after: Seq<Cell>,
    rules: Seq<AdjacencyRules>,
    size: int,
    height: int,
    q: int,
    p: int,
    d: Dir,
)
    requires
        0 <= q < before.len(),
        before.len() == after.len(),
        narrows_cell(before[q], after[q]),
        forall|i: int| 0 <= i < before.len() && i != q ==> #[trigger] after[i] == before[i],
        p != q,
        arc_ok(before, rules, size, height, p, d),
    ensures
        arc_ok(after, rules, size, height, p, d),
{
    reveal(arc_ok);
    if 0 <= p < after.len() && spec_neighbor(size, height, p, d) is Some
        && 0 <= spec_neighbor(size, height, p, d)->0 < after.len() {
        let r = spec_neighbor(size, height, p, d)->0;
        assert(after[p] == before[p]);
        if after[r] is Superpos && !(after[p] is Uncovered) {
            assert(narrows_cell(before[r], after[r]));
            assert forall|b: int| 0 <= b < after[r]->Superpos_0.len() && #[trigger] after[r]->Superpos_0[b]
                implies exists|a: int| possible(after[p], a) && AdjRuleSet::spec_allows_seq(rules, a, d, b) by {
                assert(before[r]->Superpos_0[b]);
            }
        }
    }
}

/// One step of the work list: after the arc of `cur` in direction `d`
/// (the `k`-th) is made consistent, possibly by narrowing cell `q`, which is
/// then on the stack if it changed, the claim covers one more direction.
proof fn lemma_claim_step(
    start: Seq<Cell>,
    before: Seq<Cell>,
    after: Seq<Cell>,
    s1: Seq<usize>,
    s2: Seq<usize>,
    rules: Seq<AdjacencyRules>,
    size: int,
    height: int,
    pos: int,
    cur: int,
    k: int,
    d: Dir,
    q: int,
)
    requires
        arcs_claim(start, before, s1, rules, size, height, pos, cur, k),
        dir_index(d) == k,
        0 <= q < before.len(),
        q != cur,
        before.len() == after.len(),
        narrows_cell(before[q], after[q]),
        forall|i: int| 0 <= i < before.len() && i != q ==> #[trigger] after[i] == before[i],
        after[q] != before[q] ==> on_stack(s2, q),
        forall|p: int| on_stack(s1, p) ==> on_stack(s2, p),
        arc_ok(after, rules, size, height, cur, d),
    ensures
        arcs_claim(start, after, s2, rules, size, height, pos, cur, k + 1),
{
    assert forall|p: int, e: Dir|
        0 <= p < after.len() && (#[trigger] arc_ok(start, rules, size, height, p, e) || p == pos) implies arc_ok(
        after,
        rules,
        size,
        height,
        p,
        e,
    ) || on_stack(s2, p) || (p == cur && dir_index(e) >= k + 1) by {
        assert(arc_ok(before, rules, size, height, p, e) || on_stack(s1, p) || (p == cur && dir_index(e) >= k));
        if p == cur && e == d {
        } else if on_stack(s1, p) {
        } else if p == cur && dir_index(e) >= k {
            assert(dir_index(e) != k) by {
                if dir_index(e) == k {
                    assert(e == d);
                }
            }
        } else if p == q {
            if after[q] == before[q] {
                assert(after =~= before);
            }
        } else {
            lemma_arc_after_narrow(before, after, rules, size, height, q, p, e);
        }
    }
}

/// A cell popped off the stack has all its arcs pending.
proof fn lemma_claim_pop(
    start: Seq<Cell>,
    w: Seq<Cell>,
    s: Seq<usize>,
    rules: Seq<AdjacencyRules>,
    size: int,
    height: int,
    pos: int,
    cur: int,
)
    requires
        arcs_claim(start, w, s, rules, size, height, pos, cur, 6),
        s.len() > 0,
    ensures
        arcs_claim(start, w, s.drop_last(), rules, size, height, pos, s.last() as int, 0),
{
    let s2 = s.drop_last();
    assert forall|p: int, e: Dir|
        0 <= p < w.len() && (#[trigger] arc_ok(start, rules, size, height, p, e) || p == pos) implies arc_ok(
        w,
        rules,
        size,
        height,
        p,
        e,
    ) || on_stack(s2, p) || (p == s.last() as int && dir_index(e) >= 0) by {
        assert(arc_ok(w, rules, size, height, p, e) || on_stack(s, p) || (p == cur && dir_index(e) >= 6));
        if on_stack(s, p) && p != s.last() as int {
            let k = choose|k: int| 0 <= k < s.len() && s[k] as int == p;
            assert(k < s.len() - 1);
            assert(s2[k] == s[k]);
        }
    }
}

/// With the stack empty, every claimed arc is consistent.
proof fn lemma_claim_final(
    start: Seq<Cell>,
    w: Seq<Cell>,
    s: Seq<usize>,
    rules: Seq<AdjacencyRules>,
    size: int,
    height: int,
    pos: int,
)
    requires
        arcs_claim(start, w, s, rules, size, height, pos, pos, 6),
        s.len() == 0,
        start.len() == w.len(),
        0 <= pos < w.len(),
    ensures
        forall|p: int, d: Dir|
            0 <= p < start.len() && (#[trigger] arc_ok(start, rules, size, height, p, d) || p == pos) ==> arc_ok(
                w,
                rules,
                size,
                height,
                p,
                d,
            ),
        forall|d: Dir| #[trigger] arc_ok(w, rules, size, height, pos, d),
{
    assert forall|p: int, d: Dir|
        0 <= p < start.len() && (#[trigger] arc_ok(start, rules, size, height, p, d) || p == pos) implies arc_ok(
        w,
        rules,
        size,
        height,
        p,
        d,
    ) by {
        assert(arc_ok(w, rules, size, height, p, d) || on_stack(s, p) || (p == pos && dir_index(d) >= 6));
    }
    assert forall|d: Dir| #[trigger] arc_ok(w, rules, size, height, pos, d) by {
        assert(arc_ok(start, rules, size, height, pos, d) || pos == pos);
        assert(arc_ok(w, rules, size, height, pos, d) || on_stack(s, pos) || (pos == pos && dir_index(d) >= 6));
    }
}

/// The claim after the last direction of `cur` no longer mentions `cur`.
proof fn lemma_claim_done(
    start: Seq<Cell>,
    w: Seq<Cell>,
    s: Seq<usize>,
    rules: Seq<AdjacencyRules>,
    size: int,
    height: int,
    pos: int,
    cur: int,
    other: int,
)
    requires
        arcs_claim(start, w, s, rules, size, height, pos, cur, 6),
    ensures
        arcs_claim(start, w, s, rules, size, height, pos, other, 6),
{
}

/// An arc that holds without change advances the claim by one direction.
proof fn lemma_claim_same(
    start: Seq<Cell>,
    w: Seq<Cell>,
    s: Seq<usize>,
    rules: Seq<AdjacencyRules>,
    size: int,
    height: int,
    pos: int,
    cur: int,
    k: int,
    d: Dir,
)
    requires
        arcs_claim(start, w, s, rules, size, height, pos, cur, k),
        dir_index(d) == k,
        arc_ok(w, rules, size, height, cur, d),
    ensures
        arcs_claim(start, w, s, rules, size, height, pos, cur, k + 1),
{
    assert forall|p: int, e: Dir|
        0 <= p < w.len() && (#[trigger] arc_ok(start, rules, size, height, p, e) || p == pos) implies arc_ok(
        w,
        rules,
        size,
        height,
        p,
        e,
    ) || on_stack(s, p) || (p == cur && dir_index(e) >= k + 1) by {
        assert(arc_ok(w, rules, size, height, p, e) || on_stack(s, p) || (p == cur && dir_index(e) >= k));
        if p == cur && dir_index(e) == k {
            assert(e == d);
        }
    }
}

proof fn lemma_on_stack_push(s: Seq<usize>, x: usize)
    ensures
        on_stack(s.push(x), x as int),
        forall|p: int| on_stack(s, p) ==> on_stack(s.push(x), p),
{
    assert(s.push(x)[s.len() as int] == x);
    assert forall|p: int| on_stack(s, p) implies on_stack(s.push(x), p) by {
        let k = choose|k: int| 0 <= k < s.len() && s[k] as int == p;
        assert(s.push(x)[k] == s[k]);
    }
}

/// Narrowing cell `q` to what its covered neighbour `cur` allows in
/// direction `d` keeps every rule-obeying assignment that fit the start.
proof fn lemma_keeps_solutions_step(
    start: Seq<Cell>,
    before: Seq<Cell>,
    after: Seq<Cell>,
    rules: Seq<AdjacencyRules>,
    size: int,
    height: int,
    cur: int,
    d: Dir,
    q: int,
    allowed: Seq<bool>,
)
    requires
        keeps_solutions(start, before, rules, size, height),
        narrows(start, before),
        0 <= cur < before.len(),
        0 <= q < before.len(),
        spec_neighbor(size, height, cur, d) == Some(q),
        !(before[cur] is Uncovered),
        before[q] is Superpos,
        allowed.len() == before[q]->Superpos_0.len(),
        forall|b: int|
            0 <= b < allowed.len() ==> (#[trigger] allowed[b] <==> exists|a: int|
                possible(before[cur], a) && AdjRuleSet::spec_allows_seq(rules, a, d, b)),
        after == before.update(
            q,
            Cell::Superpos(
                Seq::new(before[q]->Superpos_0.len(), |b: int| before[q]->Superpos_0[b] && allowed[b]),
            ),
        ),
    ensures
        keeps_solutions(start, after, rules, size, height),
{
    assert forall|a: Seq<int>| fits(start, a) && obeys(start, a, rules, size, height) implies #[trigger] fits(
        after,
        a,
    ) by {
        assert(fits(before, a));
        assert(narrows_cell(start[cur], before[cur]));
        assert(narrows_cell(start[q], before[q]));
        assert(!(start[cur] is Uncovered) && !(start[q] is Uncovered));
        assert(AdjRuleSet::spec_allows_seq(rules, a[cur], d, a[q]));
        assert(possible(before[cur], a[cur]));
        assert(possible(before[q], a[q]));
        assert(allowed[a[q]]);
        assert forall|p: int| 0 <= p < after.len() && !(after[p] is Uncovered) implies #[trigger] possible(
            after[p],
            a[p],
        ) by {
            assert(possible(before[p], a[p]));
        }
    }
}

/// Assignment `a` puts in each covered cell a variant that may occupy its layer.
spec fn respects_levels(a: Seq<int>, tiles: Seq<Tile>, size: int) -> bool {
    forall|p: int|
        0 <= p < a.len() && spec_layer_covered(tiles, spec_coords(size, p).1) ==> 0 <= #[trigger] a[p] < tiles.len()
            && tiles[a[p]].spec_level_allows(spec_coords(size, p).1)
}

/// Narrowing keeps which cells are covered, so an assignment obeys the rules
/// on the narrowed wave exactly when it does on the original.
proof fn lemma_obeys_narrows(w1: Seq<Cell>, w2: Seq<Cell>, a: Seq<int>, rules: Seq<AdjacencyRules>, size: int, height: int)
    requires
        narrows(w1, w2),
    ensures
        obeys(w1, a, rules, size, height) == obeys(w2, a, rules, size, height),
{
    assert forall|i: int| 0 <= i < w1.len() implies ((#[trigger] w1[i] is Uncovered) == (w2[i] is Uncovered)) by {
        assert(narrows_cell(w1[i], w2[i]));
    }
}

proof fn lemma_keeps_solutions_trans(
    w1: Seq<Cell>,
    w2: Seq<Cell>,
    w3: Seq<Cell>,
    rules: Seq<AdjacencyRules>,
    size: int,
    height: int,
)
    requires
        keeps_solutions(w1, w2, rules, size, height),
        keeps_solutions(w2, w3, rules, size, height),
        narrows(w1, w2),
    ensures
        keeps_solutions(w1, w3, rules, size, height),
{
    assert forall|a: Seq<int>| fits(w1, a) && obeys(w1, a, rules, size, height) implies #[trigger] fits(w3, a) by {
        lemma_obeys_narrows(w1, w2, a, rules, size, height);
        assert(fits(w2, a));
    }
}

/// Generates a chunk by wave function collapse.
pub struct ChunkBuilder {
    id: ChunkId,
    size: usize,
    height: usize,
    wave: Vec<WaveState>,
    rules: AdjRuleSet,
}

impl ChunkBuilder {
    /// The position of the chunk to build.
    pub closed spec fn spec_id(&self) -> (int, int) {
        self.id@
    }

    /// The horizontal extent of the chunk to build.
    pub closed spec fn spec_size(&self) -> int {
        self.size as int
    }

    /// The vertical extent of the chunk to build.
    pub closed spec fn spec_height(&self) -> int {
        self.height as int
    }

    /// The adjacency rules the chunk must obey.
    pub closed spec fn spec_rules(&self) -> Seq<AdjacencyRules> {
        self.rules.0@
    }

    spec fn cells(&self) -> Seq<Cell> {
        cells_of(self.wave@)
    }

    spec fn n(&self) -> int {
        self.rules.0@.len() as int
    }

    spec fn vol(&self) -> int {
        self.size * self.size * self.height
    }

    /// Cell indices and tile identifiers fit their machine types.
    pub open spec fn spec_fits(&self) -> bool {
        &&& self.spec_size() * self.spec_size() <= usize::MAX
        &&& self.spec_size() * self.spec_size() * self.spec_height() <= usize::MAX
        &&& self.spec_rules().len() <= u32::MAX
    }

    spec fn grid_wf(&self) -> bool {
        &&& self.spec_fits()
        &&& self.cells().len() == self.vol()
        &&& cells_wf(self.cells(), self.n())
    }

    spec fn same_frame(&self, other: &ChunkBuilder) -> bool {
        &&& self.id == other.id
        &&& self.size == other.size
        &&& self.height == other.height
        &&& self.rules == other.rules
    }

    /// The cell next to `pos` in direction `dir`, if it lies in the chunk.
    fn neighbor(&self, pos: usize, dir: Dir) -> (r: Option<usize>)
        requires
            self.spec_fits(),
            pos < self.vol(),
        ensures
            match r {
                Some(q) => spec_neighbor(self.size as int, self.height as int, pos as int, dir) == Some(q as int),
                None => spec_neighbor(self.size as int, self.height as int, pos as int, dir) is None,
            },
    {
        proof {
            assert(self.size > 0) by (nonlinear_arith)
                requires pos < self.size * self.size * self.height, self.size >= 0, self.height >= 0;
            lemma_coords_round_trip(self.size as int, self.height as int, pos as int);
        }
        let (x, y, z) = coords_of(self.size, pos);
        match dir {
            Dir::Forward => if z == 0 {
                None
            } else {
                Some(index_of(self.size, self.height, x, y, z - 1))
            },
            Dir::Backward => if z + 1 >= self.size {
                None
            } else {
                Some(index_of(self.size, self.height, x, y, z + 1))
            },
            Dir::Left => if x == 0 {
                None
            } else {
                Some(index_of(self.size, self.height, x - 1, y, z))
            },
            Dir::Right => if x + 1 >= self.size {
                None
            } else {
                Some(index_of(self.size, self.height, x + 1, y, z))
            },
            Dir::Up => if y + 1 >= self.height {
                None
            } else {
                Some(index_of(self.size, self.height, x, y + 1, z))
            },
            Dir::Down => if y == 0 {
                None
            } else {
                Some(index_of(self.size, self.height, x, y - 1, z))
            },
        }
    }

    /// Sets in `mask` the flag of every variant that variant `a` allows in
    /// direction `dir`.
    fn add_allowed(&self, a: usize, dir: Dir, mask: &mut Vec<bool>)
        requires
            a < self.n(),
            old(mask)@.len() == self.n(),
        ensures
            final(mask)@.len() == self.n(),
            forall|b: int|
                0 <= b < self.n() ==> #[trigger] final(mask)@[b] == (old(mask)@[b]
                    || AdjRuleSet::spec_allows_seq(self.rules.0@, a as int, dir, b)),
    {
        let n = self.rules.0.len();
        let list = self.rules.0[a].from_dir(dir);
        let ghost l = self.rules.0@[a as int].spec_list(dir);
        let ghost start = mask@;
        let mut k: usize = 0;
        while k < list.len()
            invariant
                list@ == l,
                n == self.n(),
                l == self.rules.0@[a as int].spec_list(dir),
                0 <= k <= l.len(),
                mask@.len() == n,
                forall|b: int|
                    0 <= b < n ==> #[trigger] mask@[b] == (start[b] || exists|j: int|
                        0 <= j < k && #[trigger] l[j].0 == b),
            decreases l.len() - k,
        {
            let id = list[k].0 as usize;
            if id < n {
                mask.set(id, true);
            }
            proof {
                assert forall|b: int|
                    0 <= b < n implies #[trigger] mask@[b] == (start[b] || exists|j: int|
                        0 <= j < k + 1 && #[trigger] l[j].0 == b) by {
                    if l[k as int].0 == b {
                        assert(exists|j: int| 0 <= j < k + 1 && #[trigger] l[j].0 == b);
                    }
                    if exists|j: int| 0 <= j < k && #[trigger] l[j].0 == b {
                        let j = choose|j: int| 0 <= j < k && #[trigger] l[j].0 == b;
                        assert(0 <= j < k + 1 && l[j].0 == b);
                    }
                    if exists|j: int| 0 <= j < k + 1 && #[trigger] l[j].0 == b {
                        let j = choose|j: int| 0 <= j < k + 1 && #[trigger] l[j].0 == b;
                        if j < k {
                            assert(exists|j2: int| 0 <= j2 < k && #[trigger] l[j2].0 == b);
                        }
                    }
                }
            }
            k += 1;
        }
    }

    /// The variants allowed next to cell `pos` in direction `dir`: those that
    /// some variant the cell holds or may hold allows there. `None` for an
    /// uncovered cell.
    fn allowed_from(&self, pos: usize, dir: Dir) -> (r: Option<Vec<bool>>)
        requires
            self.grid_wf(),
            pos < self.vol(),
        ensures
            self.cells()[pos as int] is Uncovered <==> r is None,
            r matches Some(m) ==> m@.len() == self.n(),
            r matches Some(m) ==> forall|b: int|
                0 <= b < self.n() ==> #[trigger] m@[b] == match self.cells()[pos as int] {
                    Cell::Collapsed(t) => AdjRuleSet::spec_allows_seq(self.rules.0@, t, dir, b),
                    Cell::Superpos(ms) => exists|a: int|
                        0 <= a < self.n() && ms[a] && AdjRuleSet::spec_allows_seq(self.rules.0@, a, dir, b),
                    Cell::Uncovered => false,
                },
    {
        let n = self.rules.0.len();
        assert(self.cells()[pos as int] == self.wave@[pos as int]@);
        match &self.wave[pos] {
            WaveState::Uncovered => None,
            WaveState::Collapsed(t) => {
                let mut mask = vec![false; n];
                self.add_allowed(t.0 as usize, dir, &mut mask);
                Some(mask)
            },
            WaveState::Superpos(ms) => {
                let mut mask = vec![false; n];
                let mut a: usize = 0;
                while a < n
                    invariant
                        n == self.n(),
                        ms@.len() == n,
                        0 <= a <= n,
                        mask@.len() == n,
                        forall|b: int|
                            0 <= b < n ==> #[trigger] mask@[b] == exists|a2: int|
                                0 <= a2 < a && ms@[a2] && AdjRuleSet::spec_allows_seq(self.rules.0@, a2, dir, b),
                    decreases n - a,
                {
                    let ghost before = mask@;
                    if ms[a] {
                        self.add_allowed(a, dir, &mut mask);
                    }
                    proof {
                        assert forall|b: int| 0 <= b < n implies #[trigger] mask@[b] == exists|a2: int|
                            0 <= a2 < a + 1 && ms@[a2] && AdjRuleSet::spec_allows_seq(self.rules.0@, a2, dir, b) by {
                            if exists|a2: int|
                                0 <= a2 < a + 1 && ms@[a2] && AdjRuleSet::spec_allows_seq(self.rules.0@, a2, dir, b) {
                                let a2 = choose|a2: int|
                                    0 <= a2 < a + 1 && ms@[a2] && AdjRuleSet::spec_allows_seq(self.rules.0@, a2, dir, b);
                                if a2 < a {
                                    assert(before[b]);
                                }
                            }
                        }
                    }
                    a += 1;
                }
                Some(mask)
            },
        }
    }

    /// Removes from the undecided cell `q` every candidate not flagged in
    /// `allowed`; tells whether any was removed.
    fn restrict(&mut self, q: usize, allowed: &Vec<bool>) -> (changed: bool)
        requires
            old(self).grid_wf(),
            q < old(self).vol(),
            old(self).cells()[q as int] is Superpos,
            allowed@.len() == old(self).n(),
        ensures
            final(self).grid_wf(),
            final(self).same_frame(old(self)),
            ({
                let m = old(self).cells()[q as int]->Superpos_0;
                final(self).cells() == old(self).cells().update(
                    q as int,
                    Cell::Superpos(Seq::new(m.len(), |b: int| m[b] && allowed@[b])),
                )
            }),
            narrows(old(self).cells(), final(self).cells()),
            changed ==> wave_count(final(self).cells()) < wave_count(old(self).cells()),
            !changed ==> wave_count(final(self).cells()) <= wave_count(old(self).cells()),
            !changed ==> final(self).cells() == old(self).cells(),
    {
        let ghost m = self.cells()[q as int]->Superpos_0;
        assert(self.cells()[q as int] == self.wave@[q as int]@);
        let mut changed = false;
        let mut next: Vec<bool> = Vec::new();
        match &self.wave[q] {
            WaveState::Superpos(cur) => {
                let mut b: usize = 0;
                while b < cur.len()
                    invariant
                        cur@ == m,
                        m.len() == allowed@.len(),
                        0 <= b <= m.len(),
                        next@ =~= Seq::new(b as nat, |k: int| m[k] && allowed@[k]),
                        changed == exists|k: int| 0 <= k < b && m[k] && !allowed@[k],
                    decreases m.len() - b,
                {
                    let keep = cur[b] && allowed[b];
                    if cur[b] && !allowed[b] {
                        changed = true;
                    }
                    next.push(keep);
                    b += 1;
                }
            },
            _ => {},
        }
        let ghost nm = Seq::new(m.len(), |b: int| m[b] && allowed@[b]);
        assert(next@ =~= nm);
        let ghost before = self.cells();
        self.wave.set(q, WaveState::Superpos(next));
        proof {
            assert(self.cells() =~= before.update(q as int, Cell::Superpos(nm)));
            if !changed {
                assert(nm =~= m);
                assert(self.cells() =~= before);
            }
            lemma_mask_count_le(m, nm);
            if changed {
                let k = choose|k: int| 0 <= k < m.len() && m[k] && !allowed@[k];
                assert(!nm[k]);
            }
            lemma_wave_count_update(before, q as int, Cell::Superpos(nm));
            assert forall|i: int| 0 <= i < before.len() implies narrows_cell(#[trigger] before[i], self.cells()[i]) by {
                if i == q {
                    assert(narrows_cell(before[i], Cell::Superpos(nm)));
                }
            }
            assert forall|i: int| 0 <= i < self.cells().len() implies match #[trigger] self.cells()[i] {
                Cell::Superpos(m) => m.len() == self.n(),
                Cell::Collapsed(t) => 0 <= t < self.n(),
                Cell::Uncovered => true,
            } by {
                assert(match before[i] {
                    Cell::Superpos(m) => m.len() == self.n(),
                    Cell::Collapsed(t) => 0 <= t < self.n(),
                    Cell::Uncovered => true,
                });
            }
        }
        changed
    }

    /// Propagates the adjacency rules from cell `pos`: each neighbour of a
    /// visited cell keeps only the candidates that the visited cell allows in
    /// that direction, and each neighbour that lost a candidate is visited in
    /// turn.
    fn propagate(&mut self, pos: usize)
        requires
            old(self).grid_wf(),
            pos < old(self).vol(),
        ensures
            final(self).grid_wf(),
            final(self).same_frame(old(self)),
            narrows(old(self).cells(), final(self).cells()),
            no_conflict(old(self).cells(), old(self).rules.0@, old(self).size as int, old(self).height as int)
                ==> final(self).cells() == old(self).cells(),
            forall|p: int, d: Dir|
                0 <= p < old(self).cells().len() && (#[trigger] arc_ok(
                    old(self).cells(),
                    old(self).rules.0@,
                    old(self).size as int,
                    old(self).height as int,
                    p,
                    d,
                ) || p == pos) ==> arc_ok(
                    final(self).cells(),
                    old(self).rules.0@,
                    old(self).size as int,
                    old(self).height as int,
                    p,
                    d,
                ),
            forall|d: Dir|
                #[trigger] arc_ok(
                    final(self).cells(),
                    old(self).rules.0@,
                    old(self).size as int,
                    old(self).height as int,
                    pos as int,
                    d,
                ),
            keeps_solutions(
                old(self).cells(),
                final(self).cells(),
                old(self).rules.0@,
                old(self).size as int,
                old(self).height as int,
            ),
            old(self).cells()[pos as int] is Collapsed ==> forall|d: Dir|
                #![trigger spec_neighbor(final(self).size as int, final(self).height as int, pos as int, d)]
                spec_neighbor(final(self).size as int, final(self).height as int, pos as int, d) is Some
                    && final(self).cells()[spec_neighbor(final(self).size as int, final(self).height as int, pos as int, d)->0] is Superpos
                    ==> admits(
                    final(self).rules.0@,
                    old(self).cells()[pos as int]->Collapsed_0,
                    d,
                    final(self).cells()[spec_neighbor(final(self).size as int, final(self).height as int, pos as int, d)->0],
                ),
    {
        let ghost start = self.cells();
        let ghost size = self.size as int;
        let ghost height = self.height as int;
        let ghost t = start[pos as int]->Collapsed_0;
        let ghost rules = self.rules.0@;
        let mut stack: Vec<usize> = Vec::new();
        stack.push(pos);
        let ghost mut first = true;
        proof {
            assert(stack@[0] == pos);
            assert(on_stack(stack@, pos as int));
        }
        while stack.len() > 0
            invariant
                self.grid_wf(),
                self.same_frame(old(self)),
                start == old(self).cells(),
                t == start[pos as int]->Collapsed_0,
                size == self.size,
                height == self.height,
                pos < self.vol(),
                narrows(start, self.cells()),
                no_conflict(start, self.rules.0@, size, height) ==> self.cells() == start,
                rules == self.rules.0@,
                arcs_claim(start, self.cells(), stack@, rules, size, height, pos as int, pos as int, 6),
                keeps_solutions(start, self.cells(), rules, size, height),
                forall|k: int| 0 <= k < stack@.len() ==> #[trigger] stack@[k] < self.vol(),
                first ==> stack@ == seq![pos] && self.cells() == start,
                !first && start[pos as int] is Collapsed ==> forall|d: Dir|
                    #![trigger spec_neighbor(size, height, pos as int, d)]
                    spec_neighbor(size, height, pos as int, d) is Some
                        && self.cells()[spec_neighbor(size, height, pos as int, d)->0] is Superpos
                        ==> admits(self.rules.0@, t, d, self.cells()[spec_neighbor(size, height, pos as int, d)->0]),
            decreases 7 * wave_count(self.cells()) + stack@.len(),
        {
            let ghost measure = 7 * wave_count(self.cells()) + stack@.len();
            proof {
                lemma_claim_pop(start, self.cells(), stack@, rules, size, height, pos as int, pos as int);
            }
            let ghost before_pop = stack@;
            let current_pos = stack.pop().unwrap();
            proof {
                assert(stack@ == before_pop.drop_last());
                assert(current_pos == before_pop.last());
            }
            let ghost was_first = first;
            let ghost iter_start = self.cells();
            let dirs = Dir::all();
            let mut k: usize = 0;
            while k < 6
                invariant
                    dirs@ == Dir::spec_all(),
                    0 <= k <= 6,
                    self.grid_wf(),
                    self.same_frame(old(self)),
                    start == old(self).cells(),
                    t == start[pos as int]->Collapsed_0,
                    size == self.size,
                    height == self.height,
                    pos < self.vol(),
                    current_pos < self.vol(),
                    narrows(start, self.cells()),
                    narrows(iter_start, self.cells()),
                    no_conflict(start, self.rules.0@, size, height) ==> self.cells() == start,
                    rules == self.rules.0@,
                    arcs_claim(start, self.cells(), stack@, rules, size, height, pos as int, current_pos as int, k as int),
                    keeps_solutions(start, self.cells(), rules, size, height),
                    forall|j: int| 0 <= j < stack@.len() ==> #[trigger] stack@[j] < self.vol(),
                    7 * wave_count(self.cells()) + stack@.len() < measure,
                    was_first ==> current_pos == pos && iter_start == start,
                    was_first && start[pos as int] is Collapsed ==> forall|j: int|
                        0 <= j < k && #[trigger] spec_neighbor(size, height, pos as int, dirs@[j]) is Some
                            && self.cells()[spec_neighbor(size, height, pos as int, dirs@[j])->0] is Superpos
                            ==> admits(self.rules.0@, t, dirs@[j], self.cells()[spec_neighbor(size, height, pos as int, dirs@[j])->0]),
                    !was_first && start[pos as int] is Collapsed ==> forall|d: Dir|
                        #![trigger spec_neighbor(size, height, pos as int, d)]
                        spec_neighbor(size, height, pos as int, d) is Some
                            && self.cells()[spec_neighbor(size, height, pos as int, d)->0] is Superpos
                            ==> admits(self.rules.0@, t, d, self.cells()[spec_neighbor(size, height, pos as int, d)->0]),
                decreases 6 - k,
            {
                let dir = dirs[k];
                let ghost before = self.cells();
                let ghost stack_before = stack@;
                proof {
                    assert(dir_index(dir) == k) by {
                        assert(dirs@[k as int] == dir);
                    }
                }
                if let Some(neighbor_pos) = self.neighbor(current_pos, dir) {
                    proof {
                        lemma_neighbor_symmetric(size, height, current_pos as int, dir);
                        assert(self.cells()[neighbor_pos as int] == self.wave@[neighbor_pos as int]@);
                    }
                    if let WaveState::Superpos(_) = &self.wave[neighbor_pos] {
                        if let Some(allowed) = self.allowed_from(current_pos, dir) {
                            let changed = self.restrict(neighbor_pos, &allowed);
                            if changed {
                                stack.push(neighbor_pos);
                            }
                            proof {
                                let after = self.cells();
                                let qi = neighbor_pos as int;
                                let ci = current_pos as int;
                                lemma_allowed_possible(before[ci], allowed@, rules, dir, self.n());
                                assert(before[qi]->Superpos_0.len() == self.n());
                                assert(after[ci] == before[ci]);
                                assert forall|b: int|
                                    0 <= b < after[qi]->Superpos_0.len() && #[trigger] after[qi]->Superpos_0[b]
                                    implies exists|a: int| possible(after[ci], a) && AdjRuleSet::spec_allows_seq(rules, a, dir, b) by {
                                    assert(allowed@[b]);
                                }
                                assert(arc_ok(after, rules, size, height, ci, dir)) by {
                                    reveal(arc_ok);
                                }
                                lemma_on_stack_push(stack_before, neighbor_pos);
                                assert(narrows_cell(before[qi], after[qi]));
                                lemma_claim_step(start, before, after, stack_before, stack@, rules, size, height,
                                    pos as int, ci, k as int, dir, qi);
                                lemma_keeps_solutions_step(start, before, after, rules, size, height, ci, dir, qi, allowed@);
                                if no_conflict(start, self.rules.0@, size, height) {
                                    let m = before[neighbor_pos as int]->Superpos_0;
                                    let cur = before[current_pos as int];
                                    assert(m.len() == self.n());
                                    assert forall|b: int| 0 <= b < m.len() && m[b] implies allowed@[b] by {
                                        assert(possible(before[neighbor_pos as int], b));
                                        match cur {
                                            Cell::Collapsed(tc) => {
                                                assert(possible(before[current_pos as int], tc));
                                            },
                                            Cell::Superpos(ms) => {
                                                let a = choose|a: int| possible(before[current_pos as int], a);
                                                assert(possible(before[current_pos as int], a));
                                                assert(ms[a] && AdjRuleSet::spec_allows_seq(self.rules.0@, a, dir, b));
                                            },
                                            Cell::Uncovered => {},
                                        }
                                    }
                                    assert(Seq::new(m.len(), |b: int| m[b] && allowed@[b]) =~= m);
                                    assert(after =~= before);
                                }
                                lemma_narrows_trans(start, before, after);
                                lemma_narrows_trans(iter_start, before, after);
                                assert forall|i: int| 0 <= i < before.len() && i != neighbor_pos
                                    implies #[trigger] after[i] == before[i] by {}
                                if was_first && start[pos as int] is Collapsed {
                                    assert(before[pos as int] == start[pos as int]) by {
                                        assert(narrows_cell(start[pos as int], before[pos as int]));
                                    }
                                    let m = before[neighbor_pos as int]->Superpos_0;
                                    assert(m.len() == self.n());
                                    assert(current_pos == pos);
                                    assert(start[pos as int] == Cell::Collapsed(t));
                                    assert(before[current_pos as int] == Cell::Collapsed(t));
                                    assert forall|b: int|
                                        0 <= b < after[neighbor_pos as int]->Superpos_0.len()
                                            && #[trigger] after[neighbor_pos as int]->Superpos_0[b]
                                        implies AdjRuleSet::spec_allows_seq(self.rules.0@, t, dir, b) by {
                                        assert(m[b] && allowed@[b]);
                                        assert(b < self.n());
                                        assert(allowed@[b] == AdjRuleSet::spec_allows_seq(self.rules.0@, t, dir, b));
                                    }
                                    assert(admits(self.rules.0@, t, dir, after[neighbor_pos as int]));
                                    assert forall|j: int|
                                        0 <= j < k + 1 && #[trigger] spec_neighbor(size, height, pos as int, dirs@[j]) is Some
                                            && after[spec_neighbor(size, height, pos as int, dirs@[j])->0] is Superpos
                                            implies admits(self.rules.0@, t, dirs@[j], after[spec_neighbor(size, height, pos as int, dirs@[j])->0]) by {
                                        let q = spec_neighbor(size, height, pos as int, dirs@[j])->0;
                                        assert(size > 0) by (nonlinear_arith)
                                            requires pos < size * size * height, size >= 0, height >= 0;
                                        lemma_neighbor_symmetric(size, height, pos as int, dirs@[j]);
                                        if j < k && q != neighbor_pos {
                                            assert(after[q] == before[q]);
                                        }
                                    }
                                }
                                if !was_first && start[pos as int] is Collapsed {
                                    assert forall|d: Dir|
                                        #![trigger spec_neighbor(size, height, pos as int, d)]
                                        spec_neighbor(size, height, pos as int, d) is Some
                                            && after[spec_neighbor(size, height, pos as int, d)->0] is Superpos
                                            implies admits(self.rules.0@, t, d, after[spec_neighbor(size, height, pos as int, d)->0]) by {
                                        let q = spec_neighbor(size, height, pos as int, d)->0;
                                        assert(size > 0) by (nonlinear_arith)
                                            requires pos < size * size * height, size >= 0, height >= 0;
                                        lemma_neighbor_symmetric(size, height, pos as int, d);
                                        assert(narrows_cell(before[q], after[q]));
                                        lemma_admits_narrows(self.rules.0@, t, d, before[q], after[q]);
                                    }
                                }
                            }
                        } else {
                            proof {
                                assert(arc_ok(before, rules, size, height, current_pos as int, dir)) by {
                                    reveal(arc_ok);
                                }
                                lemma_claim_same(start, before, stack@, rules, size, height, pos as int,
                                    current_pos as int, k as int, dir);
                            }
                        }
                    } else {
                        proof {
                            assert(arc_ok(before, rules, size, height, current_pos as int, dir)) by {
                                reveal(arc_ok);
                            }
                            lemma_claim_same(start, before, stack@, rules, size, height, pos as int,
                                current_pos as int, k as int, dir);
                        }
                    }
                } else {
                    proof {
                        assert(arc_ok(before, rules, size, height, current_pos as int, dir)) by {
                            reveal(arc_ok);
                        }
                        lemma_claim_same(start, before, stack@, rules, size, height, pos as int,
                            current_pos as int, k as int, dir);
                    }
                }
                k += 1;
            }
            proof {
                lemma_claim_done(start, self.cells(), stack@, rules, size, height, pos as int,
                    current_pos as int, pos as int);
                if was_first && start[pos as int] is Collapsed {
                    assert forall|d: Dir|
                        #![trigger spec_neighbor(size, height, pos as int, d)]
                        spec_neighbor(size, height, pos as int, d) is Some
                            && self.cells()[spec_neighbor(size, height, pos as int, d)->0] is Superpos
                            implies admits(self.rules.0@, t, d, self.cells()[spec_neighbor(size, height, pos as int, d)->0]) by {
                        let j: int = match d {
                            Dir::Forward => 0,
                            Dir::Backward => 1,
                            Dir::Left => 2,
                            Dir::Right => 3,
                            Dir::Up => 4,
                            Dir::Down => 5,
                        };
                        assert(dirs@[j] == d);
                    }
                }
                first = false;
            }
        }
        proof {
            lemma_claim_final(start, self.cells(), stack@, rules, size, height, pos as int);
        }
    }

    /// Decides the undecided cell `pos` for one of its candidates, drawn with
    /// probability proportional to the candidates' weights.
    fn collapse(&mut self, pos: usize, tiles: &Tiles, rng: &mut TileRng) -> (r: Result<TileID, WaveError>)
        requires
            old(self).grid_wf(),
            pos < old(self).vol(),
            tiles.0@.len() == old(self).n(),
            spec_sum(spec_weights(tiles.0@)) <= usize::MAX,
        ensures
            final(self).grid_wf(),
            final(self).same_frame(old(self)),
            match r {
                Ok(t) => {
                    &&& old(self).cells()[pos as int] is Superpos
                    &&& 0 <= t.0 < old(self).n()
                    &&& old(self).cells()[pos as int]->Superpos_0[t.0 as int]
                    &&& final(self).cells() == old(self).cells().update(pos as int, Cell::Collapsed(t.0 as int))
                },
                Err(e) => {
                    &&& final(self).cells() == old(self).cells()
                    &&& (e == WaveError::AlreadyCollapsed || e == WaveError::NoCandidate)
                    &&& (e == WaveError::AlreadyCollapsed) == !(old(self).cells()[pos as int] is Superpos)
                    &&& (e == WaveError::NoCandidate) == (old(self).cells()[pos as int] is Superpos
                        && masked_weight(old(self).cells()[pos as int]->Superpos_0, spec_weights(tiles.0@)) == 0)
                },
            },
    {
        let ghost w = spec_weights(tiles.0@);
        assert(self.cells()[pos as int] == self.wave@[pos as int]@);
        let mut ids: Vec<usize> = Vec::new();
        let mut weights: Vec<usize> = Vec::new();
        match &self.wave[pos] {
            WaveState::Superpos(superpos) => {
                let ghost m = superpos@;
                let n = superpos.len();
                let mut b: usize = 0;
                while b < n
                    invariant
                        m == superpos@,
                        n == m.len(),
                        n == self.n(),
                        tiles.0@.len() == n,
                        w == spec_weights(tiles.0@),
                        spec_sum(w) <= usize::MAX,
                        0 <= b <= n,
                        ids@.len() == weights@.len(),
                        spec_sum(weights@) == masked_weight(m.subrange(0, b as int), w),
                        spec_sum(weights@) <= spec_sum(w.subrange(0, b as int)),
                        forall|k: int|
                            0 <= k < ids@.len() ==> #[trigger] ids@[k] < n && m[ids@[k] as int],
                    decreases n - b,
                {
                    proof {
                        lemma_masked_weight_step(m, w, b as int);
                        lemma_sum_step(w, b as int);
                        lemma_sum_prefix_le(w, b + 1);
                    }
                    if superpos[b] {
                        proof {
                            assert(weights@.push(tiles.0@[b as int].weight).drop_last() =~= weights@);
                        }
                        ids.push(b);
                        weights.push(tiles.0[b].weight);
                    }
                    b += 1;
                }
                proof {
                    assert(m.subrange(0, n as int) =~= m);
                    assert(w.subrange(0, n as int) =~= w);
                    assert(self.cells()[pos as int]->Superpos_0 == m);
                }
            },
            _ => {
                return Err(WaveError::AlreadyCollapsed);
            },
        }
        assert(self.cells()[pos as int] is Superpos);
        assert(spec_sum(weights@) == masked_weight(self.cells()[pos as int]->Superpos_0, w));
        let Some(index) = random_by_weight(&weights, rng) else {
            proof {
                lemma_sum_nonneg(weights@);
            }
            return Err(WaveError::NoCandidate);
        };
        let tile = TileID(ids[index] as u32);
        let ghost before = self.cells();
        self.wave.set(pos, WaveState::Collapsed(tile));
        proof {
            assert(self.cells() =~= before.update(pos as int, Cell::Collapsed(tile.0 as int)));
            assert forall|i: int| 0 <= i < self.cells().len() implies match #[trigger] self.cells()[i] {
                Cell::Superpos(m) => m.len() == self.n(),
                Cell::Collapsed(t) => 0 <= t < self.n(),
                Cell::Uncovered => true,
            } by {
                assert(match before[i] {
                    Cell::Superpos(m) => m.len() == self.n(),
                    Cell::Collapsed(t) => 0 <= t < self.n(),
                    Cell::Uncovered => true,
                });
            }
        }
        Ok(tile)
    }

    /// Whether no cell is left undecided.
    fn is_collapsed(&self) -> (r: bool)
        ensures
            r == all_collapsed(self.cells()),
    {
        let mut i: usize = 0;
        while i < self.wave.len()
            invariant
                0 <= i <= self.wave@.len(),
                forall|j: int| 0 <= j < i ==> !(#[trigger] self.cells()[j] is Superpos),
            decreases self.wave@.len() - i,
        {
            assert(self.cells()[i as int] == self.wave@[i as int]@);
            if let WaveState::Superpos(_) = &self.wave[i] {
                return false;
            }
            i += 1;
        }
        true
    }

    /// The least number of candidates over the undecided cells; `None` when
    /// no cell is undecided.
    fn min_candidates(&self) -> (r: Option<usize>)
        ensures
            r is None <==> all_collapsed(self.cells()),
            r matches Some(mn) ==> exists|p: int|
                0 <= p < self.cells().len() && #[trigger] self.cells()[p] is Superpos && mask_count(
                    self.cells()[p]->Superpos_0,
                ) == mn,
            r matches Some(mn) ==> forall|p: int|
                0 <= p < self.cells().len() && #[trigger] self.cells()[p] is Superpos ==> mn <= mask_count(
                    self.cells()[p]->Superpos_0,
                ),
    {
        let mut best: Option<usize> = None;
        let mut i: usize = 0;
        while i < self.wave.len()
            invariant
                0 <= i <= self.wave@.len(),
                self.cells().len() == self.wave@.len(),
                best is None <==> forall|j: int| 0 <= j < i ==> !(#[trigger] self.cells()[j] is Superpos),
                best matches Some(mn) ==> exists|p: int|
                    0 <= p < i && #[trigger] self.cells()[p] is Superpos && mask_count(self.cells()[p]->Superpos_0) == mn,
                best matches Some(mn) ==> forall|p: int|
                    0 <= p < i && #[trigger] self.cells()[p] is Superpos ==> mn <= mask_count(
                        self.cells()[p]->Superpos_0,
                    ),
            decreases self.wave@.len() - i,
        {
            assert(self.cells()[i as int] == self.wave@[i as int]@);
            if let WaveState::Superpos(m) = &self.wave[i] {
                let c = mask_len(m);
                match best {
                    None => {
                        best = Some(c);
                    },
                    Some(mn) => {
                        if c < mn {
                            best = Some(c);
                        }
                    },
                }
            }
            i += 1;
        }
        best
    }

    /// The undecided cells with exactly `count` candidates, in index order.
    fn positions_with(&self, count: usize) -> (r: Vec<usize>)
        ensures
            forall|k: int|
                0 <= k < r@.len() ==> #[trigger] r@[k] < self.cells().len() && self.cells()[r@[k] as int] is Superpos
                    && mask_count(self.cells()[r@[k] as int]->Superpos_0) == count,
            forall|p: int|
                0 <= p < self.cells().len() && #[trigger] self.cells()[p] is Superpos && mask_count(
                    self.cells()[p]->Superpos_0,
                ) == count ==> exists|k: int| 0 <= k < r@.len() && r@[k] == p,
    {
        let mut r: Vec<usize> = Vec::new();
        let mut i: usize = 0;
        while i < self.wave.len()
            invariant
                0 <= i <= self.wave@.len(),
                self.cells().len() == self.wave@.len(),
                forall|k: int|
                    0 <= k < r@.len() ==> #[trigger] r@[k] < self.cells().len() && self.cells()[r@[k] as int] is Superpos
                        && mask_count(self.cells()[r@[k] as int]->Superpos_0) == count,
                forall|p: int|
                    0 <= p < i && #[trigger] self.cells()[p] is Superpos && mask_count(self.cells()[p]->Superpos_0)
                        == count ==> exists|k: int| 0 <= k < r@.len() && r@[k] == p,
            decreases self.wave@.len() - i,
        {
            assert(self.cells()[i as int] == self.wave@[i as int]@);
            let ghost before = r@;
            if let WaveState::Superpos(m) = &self.wave[i] {
                if mask_len(m) == count {
                    r.push(i);
                    assert(r@[before.len() as int] == i);
                }
            }
            proof {
                assert forall|p: int|
                    0 <= p < i + 1 && #[trigger] self.cells()[p] is Superpos && mask_count(self.cells()[p]->Superpos_0)
                        == count implies exists|k: int| 0 <= k < r@.len() && r@[k] == p by {
                    if p < i {
                        let k = choose|k: int| 0 <= k < before.len() && before[k] == p;
                        assert(r@[k] == p);
                    }
                }
            }
            i += 1;
        }
        r
    }

    /// The invariant of the search: the grid is well formed, no cell holds
    /// or may hold a variant outside its layer's range, and with symmetric
    /// rules every decided cell admits its neighbours.
    spec fn search_inv(&self, tiles: Seq<Tile>) -> bool {
        &&& self.grid_wf()
        &&& tiles.len() == self.n()
        &&& spec_sum(spec_weights(tiles)) <= usize::MAX
        &&& levels_ok(self.cells(), tiles, self.size as int)
        &&& AdjRuleSet::spec_symmetric_seq(self.rules.0@) ==> consistent(
            self.cells(),
            self.rules.0@,
            self.size as int,
            self.height as int,
        )
    }

    /// Backtracking search. Among the undecided cells with the fewest
    /// candidates, tries each in turn: decide it, propagate, and search on;
    /// when that fails, restore the grid and try the next cell.
    fn branch(&mut self, tiles: &Tiles, rng: &mut TileRng) -> (r: (Result<(), WaveError>, Ghost<Seq<int>>))
        requires
            old(self).search_inv(tiles.0@),
        ensures
            final(self).search_inv(tiles.0@),
            final(self).same_frame(old(self)),
            r.0 is Ok ==> all_collapsed(final(self).cells()) && refines(old(self).cells(), final(self).cells()),
            r.0 is Err ==> final(self).cells() == old(self).cells(),
            no_conflict(old(self).cells(), old(self).rules.0@, old(self).size as int, old(self).height as int)
                && (forall|b: int| 0 <= b < tiles.0@.len() ==> #[trigger] tiles.0@[b].weight > 0) ==> r.0 is Ok,
            r.0 == Err::<(), WaveError>(WaveError::NoSolution) ==> forall|p: int|
                0 <= p < old(self).cells().len() && #[trigger] old(self).cells()[p] is Superpos && (forall|p2: int|
                    0 <= p2 < old(self).cells().len() && #[trigger] old(self).cells()[p2] is Superpos ==> mask_count(
                        old(self).cells()[p]->Superpos_0,
                    ) <= mask_count(old(self).cells()[p2]->Superpos_0)) ==> r.1@.contains(p),
        decreases wave_count(old(self).cells()),
    {
        if self.is_collapsed() {
            proof {
                assert forall|i: int| 0 <= i < self.cells().len() implies refines_cell(
                    #[trigger] self.cells()[i],
                    self.cells()[i],
                ) by {}
            }
            return (Ok(()), Ghost(Seq::empty()));
        }
        let Some(min_ent) = self.min_candidates() else {
            return (Err(WaveError::NoLowestEntropy), Ghost(Seq::empty()));
        };
        let ghost cond = no_conflict(self.cells(), self.rules.0@, self.size as int, self.height as int)
            && (forall|b: int| 0 <= b < tiles.0@.len() ==> #[trigger] tiles.0@[b].weight > 0);
        if min_ent == 0 {
            proof {
                if cond {
                    let p = choose|p: int|
                        0 <= p < self.cells().len() && #[trigger] self.cells()[p] is Superpos && mask_count(
                            self.cells()[p]->Superpos_0,
                        ) == min_ent;
                    let b = choose|b: int| possible(self.cells()[p], b);
                    lemma_mask_count_positive(self.cells()[p]->Superpos_0, b);
                }
            }
            return (Err(WaveError::ZeroEntropy), Ghost(Seq::empty()));
        }
        let positions = self.positions_with(min_ent);
        let ghost start = self.cells();
        proof {
            if cond {
                let p = choose|p: int|
                    0 <= p < self.cells().len() && #[trigger] self.cells()[p] is Superpos && mask_count(
                        self.cells()[p]->Superpos_0,
                    ) == min_ent;
                assert(exists|k: int| 0 <= k < positions@.len() && positions@[k] == p);
                assert(positions@.len() > 0);
            }
        }
        let ghost mut tried: Seq<int> = Seq::empty();
        let mut i: usize = 0;
        while i < positions.len()
            invariant
                self.search_inv(tiles.0@),
                self.same_frame(old(self)),
                self.cells() == old(self).cells(),
                start == old(self).cells(),
                min_ent > 0,
                cond == (no_conflict(start, self.rules.0@, self.size as int, self.height as int)
                    && (forall|b: int| 0 <= b < tiles.0@.len() ==> #[trigger] tiles.0@[b].weight > 0)),
                cond ==> i == 0 && positions@.len() > 0,
                0 <= i <= positions@.len(),
                tried.len() == i,
                forall|k: int| 0 <= k < i ==> #[trigger] tried[k] == positions@[k] as int,
                forall|k: int|
                    0 <= k < positions@.len() ==> #[trigger] positions@[k] < start.len()
                        && start[positions@[k] as int] is Superpos && mask_count(
                        start[positions@[k] as int]->Superpos_0,
                    ) == min_ent,
            decreases positions@.len() - i,
        {
            let pos = positions[i];
            let saved = copy_wave(&self.wave);
            proof {
                if cond {
                    let m = start[pos as int]->Superpos_0;
                    let b = choose|b: int| possible(start[pos as int], b);
                    assert(m[b]);
                    assert(spec_weights(tiles.0@)[b] == tiles.0@[b].weight);
                    lemma_masked_weight_positive(m, spec_weights(tiles.0@), b);
                }
            }
            let t = match self.collapse(pos, tiles, rng) {
                Ok(t) => t,
                Err(e) => {
                    return (Err(e), Ghost(Seq::empty()));
                },
            };
            proof {
                if cond {
                    lemma_collapse_no_conflict(start, self.rules.0@, self.size as int, self.height as int, pos as int, t.0 as int);
                }
            }
            let ghost collapsed = self.cells();
            self.propagate(pos);
            proof {
                let size = self.size as int;
                let height = self.height as int;
                let after = self.cells();
                let m = start[pos as int]->Superpos_0;
                assert(size > 0) by (nonlinear_arith)
                    requires pos < size * size * height, size >= 0, height >= 0;
                lemma_wave_count_update(start, pos as int, Cell::Collapsed(t.0 as int));
                lemma_narrows_refines(collapsed, after);
                lemma_wave_count_refines(collapsed, after);
                assert(refines(start, collapsed)) by {
                    assert forall|j: int| 0 <= j < start.len() implies refines_cell(
                        #[trigger] start[j],
                        collapsed[j],
                    ) by {
                        if j != pos {
                            assert(collapsed[j] == start[j]);
                        }
                    }
                }
                lemma_refines_trans(start, collapsed, after);
                lemma_levels_refines(start, after, tiles.0@, size);
                if AdjRuleSet::spec_symmetric_seq(self.rules.0@) {
                    lemma_collapse_consistent(start, collapsed, after, self.rules.0@, size, height, pos as int, t.0 as int);
                }
                assert(wave_count(after) < wave_count(start));
            }
            let ghost before_search = self.cells();
            match self.branch(tiles, rng).0 {
                Ok(()) => {
                    proof {
                        lemma_refines_trans(start, before_search, self.cells());
                    }
                    return (Ok(()), Ghost(Seq::empty()));
                },
                Err(_) => {
                    self.wave = saved;
                },
            }
            proof {
                tried = tried.push(pos as int);
            }
            i += 1;
        }
        proof {
            assert forall|p: int|
                0 <= p < start.len() && #[trigger] start[p] is Superpos && (forall|p2: int|
                    0 <= p2 < start.len() && #[trigger] start[p2] is Superpos ==> mask_count(start[p]->Superpos_0)
                        <= mask_count(start[p2]->Superpos_0)) implies tried.contains(p) by {
                let w = choose|w: int|
                    0 <= w < start.len() && #[trigger] start[w] is Superpos && mask_count(start[w]->Superpos_0)
                        == min_ent;
                assert(mask_count(start[p]->Superpos_0) == min_ent);
                let k = choose|k: int| 0 <= k < positions@.len() && positions@[k] == p;
                assert(tried[k] == p);
            }
        }
        (Err(WaveError::NoSolution), Ghost(tried))
    }

    /// A builder for a chunk of the default dimensions, with no rules yet.
    pub fn new(id: ChunkId) -> (r: ChunkBuilder)
        ensures
            r.spec_id() == id@,
            r.spec_size() == CHUNK_SIZE,
            r.spec_height() == CHUNK_HIGHT,
            r.spec_rules().len() == 0,
            r.spec_fits(),
    {
        ChunkBuilder {
            id,
            size: CHUNK_SIZE,
            height: CHUNK_HIGHT,
            wave: Vec::new(),
            rules: AdjRuleSet(Vec::new()),
        }
    }

    /// A builder for a chunk of `size` by `height` by `size` cells, with no
    /// rules yet.
    pub fn with_dims(id: ChunkId, size: usize, height: usize) -> (r: ChunkBuilder)
        requires
            size * size <= usize::MAX,
            size * size * height <= usize::MAX,
        ensures
            r.spec_id() == id@,
            r.spec_size() == size,
            r.spec_height() == height,
            r.spec_rules().len() == 0,
            r.spec_fits(),
    {
        ChunkBuilder { id, size, height, wave: Vec::new(), rules: AdjRuleSet(Vec::new()) }
    }

    /// The builder with `set` as its adjacency rules.
    pub fn add_rule_set(self, set: AdjRuleSet) -> (r: ChunkBuilder)
        ensures
            r.spec_id() == self.spec_id(),
            r.spec_size() == self.spec_size(),
            r.spec_height() == self.spec_height(),
            r.spec_rules() == set.0@,
    {
        ChunkBuilder { rules: set, ..self }
    }

    /// Sets each cell to the variants that may occupy its layer, or to
    /// uncovered when there are none, then propagates from every cell.
    fn init(&mut self, tiles: &Tiles)
        requires
            old(self).spec_fits(),
            tiles.0@.len() == old(self).n(),
        ensures
            final(self).grid_wf(),
            final(self).same_frame(old(self)),
            levels_ok(final(self).cells(), tiles.0@, final(self).size as int),
            forall|i: int| 0 <= i < final(self).cells().len() ==> !(#[trigger] final(self).cells()[i] is Collapsed),
            forall|i: int|
                0 <= i < final(self).cells().len() ==> (#[trigger] final(self).cells()[i] is Uncovered
                    <==> !spec_layer_covered(tiles.0@, spec_coords(final(self).size as int, i).1)),
            spec_unconstrained(tiles.0@, old(self).rules.0@, old(self).size as int, old(self).height as int)
                ==> no_conflict(final(self).cells(), final(self).rules.0@, final(self).size as int, final(self).height as int),
            arc_consistent(final(self).cells(), final(self).rules.0@, final(self).size as int, final(self).height as int),
            forall|a: Seq<int>|
                a.len() == final(self).cells().len() && respects_levels(a, tiles.0@, final(self).size as int)
                    && obeys(final(self).cells(), a, final(self).rules.0@, final(self).size as int, final(self).height as int)
                    ==> #[trigger] fits(final(self).cells(), a),
    {
        let n = self.rules.0.len();
        let area = self.size * self.size;
        let ghost size = self.size as int;
        let ghost ts = tiles.0@;
        let mut wave: Vec<WaveState> = Vec::new();
        let mut y: usize = 0;
        proof {
            assert(area * self.height == self.size * self.size * self.height);
        }
        while y < self.height
            invariant
                self.spec_fits(),
                n == self.n(),
                ts == tiles.0@,
                ts.len() == n,
                size == self.size,
                area == size * size,
                0 <= y <= self.height,
                area * self.height <= usize::MAX,
                wave@.len() == y * area,
                forall|j: int|
                    0 <= j < wave@.len() ==> match #[trigger] wave@[j]@ {
                        Cell::Superpos(m) => m.len() == n && spec_layer_covered(ts, j / (area as int)) && forall|b: int|
                            0 <= b < n ==> #[trigger] m[b] == ts[b].spec_level_allows(j / (area as int)),
                        Cell::Uncovered => !spec_layer_covered(ts, j / (area as int)),
                        Cell::Collapsed(_) => false,
                    },
            decreases self.height - y,
        {
            let mut mask: Vec<bool> = Vec::new();
            let mut any = false;
            let mut b: usize = 0;
            while b < n
                invariant
                    ts == tiles.0@,
                    ts.len() == n,
                    0 <= b <= n,
                    mask@.len() == b,
                    forall|k: int| 0 <= k < b ==> #[trigger] mask@[k] == ts[k].spec_level_allows(y as int),
                    any == exists|k: int| 0 <= k < b && #[trigger] ts[k].spec_level_allows(y as int),
                decreases n - b,
            {
                let ok = tiles.0[b].level_allows(y);
                mask.push(ok);
                if ok {
                    any = true;
                }
                b += 1;
            }
            let mut i: usize = 0;
            while i < area
                invariant
                    0 <= i <= area,
                    0 <= y < self.height,
                    area == size * size,
                    ts.len() == n,
                    mask@.len() == n,
                    forall|k: int| 0 <= k < n ==> #[trigger] mask@[k] == ts[k].spec_level_allows(y as int),
                    any == spec_layer_covered(ts, y as int),
                    area * self.height <= usize::MAX,
                    wave@.len() == y * area + i,
                    forall|j: int|
                        0 <= j < wave@.len() ==> match #[trigger] wave@[j]@ {
                            Cell::Superpos(m) => m.len() == n && spec_layer_covered(ts, j / (area as int)) && forall|b: int|
                                0 <= b < n ==> #[trigger] m[b] == ts[b].spec_level_allows(j / (area as int)),
                            Cell::Uncovered => !spec_layer_covered(ts, j / (area as int)),
                            Cell::Collapsed(_) => false,
                        },
                decreases area - i,
            {
                proof {
                    vstd::arithmetic::div_mod::lemma_fundamental_div_mod_converse(
                        (y * area + i) as int,
                        area as int,
                        y as int,
                        i as int,
                    );
                    assert(y * area + i < area * self.height) by (nonlinear_arith)
                        requires i < area, y < self.height, y >= 0;
                }
                if any {
                    wave.push(WaveState::Superpos(copy_mask(&mask)));
                } else {
                    wave.push(WaveState::Uncovered);
                }
                i += 1;
            }
            proof {
                assert((y + 1) * area == y * area + area) by (nonlinear_arith);
            }
            y += 1;
        }
        proof {
            assert(self.height * area == self.size * self.size * self.height) by (nonlinear_arith)
                requires area == self.size * self.size;
        }
        self.wave = wave;
        proof {
            assert forall|i: int| 0 <= i < self.cells().len() implies match #[trigger] self.cells()[i] {
                Cell::Superpos(m) => m.len() == self.n(),
                Cell::Collapsed(t) => 0 <= t < self.n(),
                Cell::Uncovered => true,
            } by {
                assert(self.cells()[i] == self.wave@[i]@);
            }
            assert forall|i: int| 0 <= i < self.cells().len() implies match #[trigger] self.cells()[i] {
                Cell::Superpos(m) => forall|b: int|
                    0 <= b < m.len() && #[trigger] m[b] ==> b < ts.len() && ts[b].spec_level_allows(
                        spec_coords(size, i).1,
                    ),
                Cell::Collapsed(t) => 0 <= t < ts.len() && ts[t].spec_level_allows(spec_coords(size, i).1),
                Cell::Uncovered => true,
            } by {
                assert(self.cells()[i] == self.wave@[i]@);
            }
        }
        let ghost first = self.cells();
        let ghost height = self.height as int;
        let ghost rules = self.rules.0@;
        proof {
            if spec_unconstrained(ts, rules, size, height) {
                assert forall|i: int| 0 <= i < first.len() && #[trigger] first[i] is Superpos implies exists|b: int|
                    possible(first[i], b) by {
                    assert(first[i] == self.wave@[i]@);
                    let b = choose|b: int| 0 <= b < ts.len() && #[trigger] ts[b].spec_level_allows(i / (area as int));
                    assert(possible(first[i], b));
                }
                assert forall|p: int, d: Dir, a: int, b: int|
                    0 <= p < first.len() && spec_neighbor(size, height, p, d) is Some
                        && 0 <= spec_neighbor(size, height, p, d)->0 < first.len() && #[trigger] possible(first[p], a)
                        && #[trigger] possible(first[spec_neighbor(size, height, p, d)->0], b)
                    implies AdjRuleSet::spec_allows_seq(rules, a, d, b) by {
                    let q = spec_neighbor(size, height, p, d)->0;
                    assert(first[p] == self.wave@[p]@);
                    assert(first[q] == self.wave@[q]@);
                    assert(ts[a].spec_level_allows(spec_coords(size, p).1));
                    assert(ts[b].spec_level_allows(spec_coords(size, q).1));
                }
            }
        }
        proof {
            assert forall|a: Seq<int>| a.len() == first.len() && respects_levels(a, ts, size) implies #[trigger] fits(
                first,
                a,
            ) by {
                assert forall|p: int| 0 <= p < first.len() && !(first[p] is Uncovered) implies #[trigger] possible(
                    first[p],
                    a[p],
                ) by {
                    assert(first[p] == self.wave@[p]@);
                }
            }
        }
        let vol = self.wave.len();
        let mut p: usize = 0;
        while p < vol
            invariant
                vol == self.vol(),
                self.grid_wf(),
                self.same_frame(old(self)),
                size == self.size,
                ts == tiles.0@,
                0 <= p <= vol,
                narrows(first, self.cells()),
                height == self.height,
                rules == self.rules.0@,
                spec_unconstrained(ts, rules, size, height) ==> no_conflict(first, rules, size, height)
                    && self.cells() == first,
                forall|p2: int, d: Dir| 0 <= p2 < p ==> #[trigger] arc_ok(self.cells(), rules, size, height, p2, d),
                keeps_solutions(first, self.cells(), rules, size, height),
                forall|a: Seq<int>| a.len() == first.len() && respects_levels(a, ts, size) ==> #[trigger] fits(first, a),
                levels_ok(first, ts, size),
                forall|i: int| 0 <= i < first.len() ==> !(#[trigger] first[i] is Collapsed),
                forall|i: int|
                    0 <= i < first.len() ==> (#[trigger] first[i] is Uncovered <==> !spec_layer_covered(
                        ts,
                        spec_coords(size, i).1,
                    )),
            decreases vol - p,
        {
            let ghost before = self.cells();
            self.propagate(p);
            proof {
                lemma_narrows_trans(first, before, self.cells());
                lemma_keeps_solutions_trans(first, before, self.cells(), rules, size, height);
                assert forall|p2: int, d: Dir| 0 <= p2 < p + 1 implies #[trigger] arc_ok(
                    self.cells(),
                    rules,
                    size,
                    height,
                    p2,
                    d,
                ) by {
                    if p2 < p {
                        assert(arc_ok(before, rules, size, height, p2, d));
                    }
                    assert(arc_ok(before, rules, size, height, p2, d) || p2 == p);
                    assert(p2 < before.len());
                    assert(before.len() == self.cells().len());
                    assert(self.rules.0@ == rules);
                    assert(self.size as int == size);
                    assert(self.height as int == height);
                }
            }
            p += 1;
        }
        proof {
            lemma_narrows_refines(first, self.cells());
            lemma_levels_refines(first, self.cells(), ts, size);
            assert forall|a: Seq<int>|
                a.len() == self.cells().len() && respects_levels(a, ts, size) && obeys(self.cells(), a, rules, size, height)
                implies #[trigger] fits(self.cells(), a) by {
                lemma_obeys_narrows(first, self.cells(), a, rules, size, height);
                assert(fits(first, a));
            }
            assert forall|i: int| 0 <= i < self.cells().len() implies !(#[trigger] self.cells()[i] is Collapsed)
                && (self.cells()[i] is Uncovered <==> !spec_layer_covered(ts, spec_coords(size, i).1)) by {
                assert(narrows_cell(first[i], self.cells()[i]));
            }
        }
    }

    /// Generates the chunk. Every cell whose layer some variant may occupy is
    /// filled when the search succeeds; when it fails, the chunk is left
    /// empty. Cells whose layer no variant may occupy stay empty.
    pub fn build(self, tiles: &Tiles, rng: &mut TileRng) -> (r: Chunk)
        requires
            self.spec_fits(),
            tiles.0@.len() == self.spec_rules().len(),
            spec_sum(spec_weights(tiles.0@)) <= usize::MAX,
        ensures
            r@.wf(),
            r@.id == self.spec_id(),
            r@.size == self.spec_size(),
            r@.height == self.spec_height(),
            forall|i: int|
                0 <= i < r@.tiles.len() && #[trigger] r@.tiles[i] is Some ==> {
                    let t = (r@.tiles[i]->0).0 as int;
                    0 <= t < tiles.0@.len() && tiles.0@[t].spec_level_allows(r@.layer(i))
                },
            forall|i: int|
                0 <= i < r@.tiles.len() && !spec_layer_covered(tiles.0@, r@.layer(i)) ==> #[trigger] r@.tiles[i] is None,
            (forall|i: int|
                0 <= i < r@.tiles.len() && spec_layer_covered(tiles.0@, r@.layer(i)) ==> #[trigger] r@.tiles[i] is Some)
                || (forall|i: int| 0 <= i < r@.tiles.len() ==> #[trigger] r@.tiles[i] is None),
            AdjRuleSet::spec_symmetric_seq(self.spec_rules()) ==> spec_chunk_consistent(self.spec_rules(), r@),
            spec_unconstrained(tiles.0@, self.spec_rules(), self.spec_size(), self.spec_height()) ==> forall|i: int|
                0 <= i < r@.tiles.len() && spec_layer_covered(tiles.0@, r@.layer(i)) ==> #[trigger] r@.tiles[i] is Some,
    {
        let mut builder = self;
        builder.generate(tiles, rng)
    }

    fn generate(&mut self, tiles: &Tiles, rng: &mut TileRng) -> (r: Chunk)
        requires
            old(self).spec_fits(),
            tiles.0@.len() == old(self).spec_rules().len(),
            spec_sum(spec_weights(tiles.0@)) <= usize::MAX,
        ensures
            r@.wf(),
            r@.id == old(self).spec_id(),
            r@.size == old(self).spec_size(),
            r@.height == old(self).spec_height(),
            forall|i: int|
                0 <= i < r@.tiles.len() && #[trigger] r@.tiles[i] is Some ==> {
                    let t = (r@.tiles[i]->0).0 as int;
                    0 <= t < tiles.0@.len() && tiles.0@[t].spec_level_allows(r@.layer(i))
                },
            forall|i: int|
                0 <= i < r@.tiles.len() && !spec_layer_covered(tiles.0@, r@.layer(i)) ==> #[trigger] r@.tiles[i] is None,
            (forall|i: int|
                0 <= i < r@.tiles.len() && spec_layer_covered(tiles.0@, r@.layer(i)) ==> #[trigger] r@.tiles[i] is Some)
                || (forall|i: int| 0 <= i < r@.tiles.len() ==> #[trigger] r@.tiles[i] is None),
            AdjRuleSet::spec_symmetric_seq(old(self).spec_rules()) ==> spec_chunk_consistent(old(self).spec_rules(), r@),
            spec_unconstrained(tiles.0@, old(self).spec_rules(), old(self).spec_size(), old(self).spec_height())
                ==> forall|i: int|
                0 <= i < r@.tiles.len() && spec_layer_covered(tiles.0@, r@.layer(i)) ==> #[trigger] r@.tiles[i] is Some,
    {
        self.init(tiles);
        let ghost first = self.cells();
        let ghost size = self.size as int;
        let ghost height = self.height as int;
        proof {
            if spec_unconstrained(tiles.0@, self.rules.0@, size, height) {
                assert(forall|b: int| 0 <= b < tiles.0@.len() ==> #[trigger] tiles.0@[b].weight > 0);
            }
        }
        let result = self.branch(tiles, rng).0;
        let ghost last = self.cells();
        let mut out: Vec<Option<TileID>> = Vec::new();
        let mut i: usize = 0;
        while i < self.wave.len()
            invariant
                0 <= i <= self.wave@.len(),
                last == self.cells(),
                out@.len() == i,
                forall|j: int|
                    0 <= j < i ==> #[trigger] out@[j] == match last[j] {
                        Cell::Collapsed(t) => Some(TileID(t as u32)),
                        _ => None,
                    },
            decreases self.wave@.len() - i,
        {
            assert(self.cells()[i as int] == self.wave@[i as int]@);
            match &self.wave[i] {
                WaveState::Collapsed(t) => out.push(Some(*t)),
                _ => out.push(None),
            }
            i += 1;
        }
        let ghost rules = self.rules.0@;
        let chunk = Chunk::from_parts(self.id, self.size, self.height, out);
        proof {
            let c = chunk@;
            assert(c.tiles.len() == size * size * height);
            assert forall|j: int| 0 <= j < c.tiles.len() && #[trigger] c.tiles[j] is Some implies
                (c.tiles[j]->0).0 as int == last[j]->Collapsed_0 && last[j] is Collapsed by {}
            if result is Err {
                assert forall|j: int| 0 <= j < c.tiles.len() implies #[trigger] c.tiles[j] is None by {
                    assert(!(first[j] is Collapsed));
                }
            } else {
                assert forall|j: int|
                    0 <= j < c.tiles.len() && spec_layer_covered(tiles.0@, c.layer(j)) implies #[trigger] c.tiles[j] is Some by {
                    assert(refines_cell(first[j], last[j]));
                    assert(!(last[j] is Superpos));
                }
            }
            assert forall|j: int|
                0 <= j < c.tiles.len() && !spec_layer_covered(tiles.0@, c.layer(j)) implies #[trigger] c.tiles[j] is None by {
                if result is Ok {
                    assert(refines_cell(first[j], last[j]));
                }
            }
            assert forall|j: int| 0 <= j < c.tiles.len() && #[trigger] c.tiles[j] is Some implies {
                let t = (c.tiles[j]->0).0 as int;
                0 <= t < tiles.0@.len() && tiles.0@[t].spec_level_allows(c.layer(j))
            } by {
                assert(match last[j] {
                    Cell::Superpos(m) => forall|b: int|
                        0 <= b < m.len() && #[trigger] m[b] ==> b < tiles.0@.len() && tiles.0@[b].spec_level_allows(
                            spec_coords(size, j).1,
                        ),
                    Cell::Collapsed(t) => 0 <= t < tiles.0@.len() && tiles.0@[t].spec_level_allows(spec_coords(size, j).1),
                    Cell::Uncovered => true,
                });
            }
            if AdjRuleSet::spec_symmetric_seq(rules) {
                assert forall|p: int, d: Dir|
                    0 <= p < c.tiles.len() && c.tiles[p] is Some && #[trigger] spec_neighbor(c.size, c.height, p, d) is Some
                        && c.tiles[spec_neighbor(c.size, c.height, p, d)->0] is Some implies AdjRuleSet::spec_allows_seq(
                        rules,
                        (c.tiles[p]->0).0 as int,
                        d,
                        (c.tiles[spec_neighbor(c.size, c.height, p, d)->0]->0).0 as int,
                    ) by {
                    let q = spec_neighbor(c.size, c.height, p, d)->0;
                    assert(size > 0) by (nonlinear_arith)
                        requires 0 <= p < size * size * height, size >= 0, height >= 0;
                    lemma_neighbor_symmetric(size, height, p, d);
                    assert(last[p] is Collapsed);
                    assert(admits(rules, last[p]->Collapsed_0, d, last[q]));
                }
            }
        }
        chunk
    }
}

} // verus!