use vstd::prelude::*;

use crate::build_propagator::PatternPropagator;
use crate::pattern_data::PatternData;
use crate::wave::{
    indices_below, calculate_adjacent_indices, cells_of, lemma_neighbors, list_below, lemma_uncollapsed,
    lemma_uncollapsed_update, neighbors, uncollapsed, Wave,
};

verus! {

/// The entropy of a cell: the sum, over its candidates, of each candidate's
/// entropy term. Terms are given per pattern, as fixed-point integers.
pub open spec fn cell_entropy(cell: Seq<usize>, terms: Seq<u64>) -> int
    decreases cell.len(),
{
    if cell.len() == 0 {
        0
    } else {
        cell_entropy(cell.drop_last(), terms) + terms[cell.last() as int]
    }
}

/// Whether position `k` of `order`, among its first `end` positions, holds
/// the first cell of least entropy among those with more than one candidate.
pub open spec fn first_lowest(
    cells: Seq<Seq<usize>>,
    terms: Seq<u64>,
    order: Seq<usize>,
    k: int,
    end: int,
) -> bool {
    &&& 0 <= k < end
    &&& cells[order[k] as int].len() > 1
    &&& forall|j: int|
        0 <= j < end && #[trigger] cells[order[j] as int].len() > 1 ==> cell_entropy(
            cells[order[k] as int],
            terms,
        ) <= cell_entropy(cells[order[j] as int], terms)
    &&& forall|j: int|
        0 <= j < k && #[trigger] cells[order[j] as int].len() > 1 ==> cell_entropy(
            cells[order[k] as int],
            terms,
        ) < cell_entropy(cells[order[j] as int], terms)
}

/// Whether some cell listed in `order` has more than one candidate.
pub open spec fn any_open(cells: Seq<Seq<usize>>, order: Seq<usize>) -> bool {
    exists|j: int| 0 <= j < order.len() && #[trigger] cells[order[j] as int].len() > 1
}

/// The cell that a search through `order` selects: the first of least entropy
/// among those with more than one candidate, if there is any.
pub open spec fn lowest_in(cells: Seq<Seq<usize>>, terms: Seq<u64>, order: Seq<usize>) -> Option<
    usize,
> {
    if any_open(cells, order) {
        Some(order[choose|k: int| first_lowest(cells, terms, order, k, order.len() as int)])
    } else {
        None
    }
}

/// The cells around the last collapsed cell; none before any collapse.
pub open spec fn neighborhood(wave: Wave) -> Seq<usize> {
    match wave.last_index_collapsed {
        Some(l) => neighbors(wave.width as int, wave.height as int, l as int),
        None => seq![],
    }
}

/// The cell the observer collapses next: the lowest-entropy open cell around
/// the last collapsed one, else the lowest-entropy open cell of the whole
/// grid, else none.
pub open spec fn lowest_entropy_index(wave: Wave, terms: Seq<u64>) -> Option<usize> {
    if any_open(wave.cells(), neighborhood(wave)) {
        lowest_in(wave.cells(), terms, neighborhood(wave))
    } else {
        lowest_in(wave.cells(), terms, indices_below(wave.size()))
    }
}

proof fn lemma_first_lowest_unique(
    cells: Seq<Seq<usize>>,
    terms: Seq<u64>,
    order: Seq<usize>,
    k1: int,
    k2: int,
    end: int,
)
    requires
        first_lowest(cells, terms, order, k1, end),
        first_lowest(cells, terms, order, k2, end),
    ensures
        k1 == k2,
{
    if k1 < k2 {
        assert(cells[order[k1] as int].len() > 1);
    } else if k2 < k1 {
        assert(cells[order[k2] as int].len() > 1);
    }
}

/// The entropy of a cell from the per-pattern entropy terms.
pub fn calculate_entropy(indices: &Vec<usize>, entropy_terms: &Vec<u64>) -> (r: u128)
    requires
        forall|k: int| 0 <= k < indices@.len() ==> #[trigger] indices@[k] < entropy_terms@.len(),
    ensures
        r == cell_entropy(indices@, entropy_terms@),
{
    let mut entropy: u128 = 0;
    let mut i: usize = 0;
    while i < indices.len()
        invariant
            forall|k: int| 0 <= k < indices@.len() ==> #[trigger] indices@[k] < entropy_terms@.len(),
            i <= indices@.len(),
            entropy == cell_entropy(indices@.take(i as int), entropy_terms@),
            entropy <= i * (u64::MAX as int),
        decreases indices@.len() - i,
    {
        assert(indices@.take(i + 1).drop_last() =~= indices@.take(i as int));
        assert(entropy + u64::MAX <= (i + 1) * (u64::MAX as int) <= u128::MAX) by (nonlinear_arith)
            requires
                entropy <= i * (u64::MAX as int),
                i < usize::MAX,
                usize::MAX <= u64::MAX,
        ;
        entropy = entropy + entropy_terms[indices[i]] as u128;
        i += 1;
    }
    assert(indices@.take(i as int) =~= indices@);
    entropy
}

/// Whether every candidate of every cell has an entropy term.
pub open spec fn terms_cover(wave: Wave, terms: Seq<u64>) -> bool {
    forall|c: int, k: int|
        0 <= c < wave.indices@.len() && 0 <= k < wave.indices@[c]@.len() ==> #[trigger] wave.indices@[c]@[k]
            < terms.len()
}

fn lowest_in_order(wave: &Wave, entropy_terms: &Vec<u64>, order: &Vec<usize>) -> (r: Option<usize>)
    requires
        terms_cover(*wave, entropy_terms@),
        forall|j: int| 0 <= j < order@.len() ==> #[trigger] order@[j] < wave.indices@.len(),
    ensures
        r == lowest_in(wave.cells(), entropy_terms@, order@),
        match r {
            Some(c) => c < wave.indices@.len() && wave.cells()[c as int].len() > 1,
            None => true,
        },
{
    let ghost cells = wave.cells();
    let mut best: Option<usize> = None;
    let mut best_value: u128 = 0;
    let mut i: usize = 0;
    while i < order.len()
        invariant
            cells == wave.cells(),
            terms_cover(*wave, entropy_terms@),
            forall|j: int| 0 <= j < order@.len() ==> #[trigger] order@[j] < wave.indices@.len(),
            i <= order@.len(),
            match best {
                None => forall|j: int| 0 <= j < i ==> #[trigger] cells[order@[j] as int].len() <= 1,
                Some(k) => {
                    &&& first_lowest(cells, entropy_terms@, order@, k as int, i as int)
                    &&& best_value == cell_entropy(cells[order@[k as int] as int], entropy_terms@)
                },
            },
        decreases order@.len() - i,
    {
        let c = order[i];
        assert(cells[c as int] == wave.indices@[c as int]@);
        if wave.indices[c].len() > 1 {
            let e = calculate_entropy(&wave.indices[c], entropy_terms);
            let better = match best {
                None => true,
                Some(_) => e < best_value,
            };
            if better {
                best = Some(i);
                best_value = e;
            }
        }
        i += 1;
    }
    match best {
        None => {
            assert(!any_open(cells, order@));
            None
        },
        Some(k) => {
            assert(any_open(cells, order@));
            let ghost chosen = choose|k: int| first_lowest(cells, entropy_terms@, order@, k, order@.len() as int);
            proof {
                lemma_first_lowest_unique(cells, entropy_terms@, order@, k as int, chosen, order@.len() as int);
            }
            Some(order[k])
        },
    }
}

/// The cells around the last collapsed cell, in the order of `neighbors`;
/// none before any collapse.
pub fn get_last_collapsed_neighborhood(wave: &Wave) -> (r: Vec<usize>)
    requires
        wave.indices@.len() == wave.size(),
        match wave.last_index_collapsed {
            Some(l) => l < wave.size(),
            None => true,
        },
    ensures
        r@ == neighborhood(*wave),
        forall|j: int| 0 <= j < r@.len() ==> #[trigger] r@[j] < wave.size(),
{
    match wave.last_index_collapsed {
        Some(l) => {
            assert(wave.indices@.len() == wave.indices.len());
            proof {
                lemma_neighbors(wave.width as int, wave.height as int, l as int);
            }
            calculate_adjacent_indices(wave.width as usize, wave.height as usize, l)
        },
        None => Vec::new(),
    }
}

/// Selects the next cell to collapse: among the cells around the last
/// collapsed one that have more than one candidate, the first of least
/// entropy; if there is none, the first of least entropy in the whole grid;
/// `None` when every cell has at most one candidate.
pub fn find_lowest_entropy_index(wave: &Wave, entropy_terms: &Vec<u64>) -> (r: Option<usize>)
    requires
        wave.indices@.len() == wave.size(),
        match wave.last_index_collapsed {
            Some(l) => l < wave.size(),
            None => true,
        },
        terms_cover(*wave, entropy_terms@),
    ensures
        r == lowest_entropy_index(*wave, entropy_terms@),
        match r {
            Some(c) => c < wave.size() && wave.cells()[c as int].len() > 1,
            None => true,
        },
{
    let collapsed_neighborhood = get_last_collapsed_neighborhood(wave);
    let found = lowest_in_order(wave, entropy_terms, &collapsed_neighborhood);
    if found.is_some() {
        return found;
    }
    let every_cell = list_below(wave.indices.len());
    lowest_in_order(wave, entropy_terms, &every_cell)
}

/// The summed weight of a cell's candidates.
pub open spec fn candidate_weight(cell: Seq<usize>, pd: PatternData) -> int
    decreases cell.len(),
{
    if cell.len() == 0 {
        0
    } else {
        candidate_weight(cell.drop_last(), pd) + pd.patterns@[cell.last() as int].weight
    }
}

/// Whether a draw below the cell's candidate weight falls on candidate
/// position `k`: the draw lies in `k`'s share of the cumulative weights.
pub open spec fn picks(cell: Seq<usize>, pd: PatternData, draw: int, k: int) -> bool {
    &&& 0 <= k < cell.len()
    &&& candidate_weight(cell.take(k), pd) <= draw < candidate_weight(cell.take(k + 1), pd)
}

/// Draws are exact: at most one candidate position takes a given draw.
pub proof fn lemma_picks_unique(cell: Seq<usize>, pd: PatternData, draw: int, k1: int, k2: int)
    requires
        picks(cell, pd, draw, k1),
        picks(cell, pd, draw, k2),
    ensures
        k1 == k2,
{
    if k1 < k2 {
        lemma_candidate_weight_monotone(cell, pd, k1 + 1, k2);
    } else if k2 < k1 {
        lemma_candidate_weight_monotone(cell, pd, k2 + 1, k1);
    }
}

proof fn lemma_candidate_weight_monotone(cell: Seq<usize>, pd: PatternData, i: int, j: int)
    requires
        0 <= i <= j <= cell.len(),
    ensures
        candidate_weight(cell.take(i), pd) <= candidate_weight(cell.take(j), pd),
    decreases j - i,
{
    if i < j {
        lemma_candidate_weight_monotone(cell, pd, i, j - 1);
        assert(cell.take(j).drop_last() =~= cell.take(j - 1));
    }
}

/// Collapses cell `index` to the candidate on which `draw` falls, each
/// candidate taking a share of the draws equal to its weight, and records the
/// cell as the last collapsed.
pub fn collapse_wave_entry(index: usize, wave: &mut Wave, propagator: &PatternPropagator, draw: u128)
    requires
        propagator.wf(),
        old(wave).wf(propagator.count()),
        index < old(wave).size(),
        draw < candidate_weight(old(wave).cells()[index as int], propagator.pattern_data),
    ensures
        final(wave).width == old(wave).width,
        final(wave).height == old(wave).height,
        final(wave).last_index_collapsed == Some(index),
        exists|k: int|
            picks(old(wave).cells()[index as int], propagator.pattern_data, draw as int, k)
                && final(wave).cells() == old(wave).cells().update(
                index as int,
                seq![old(wave).cells()[index as int][k]],
            ),
        forall|k: int|
            #[trigger] picks(old(wave).cells()[index as int], propagator.pattern_data, draw as int, k)
                ==> final(wave).cells()[index as int] == seq![old(wave).cells()[index as int][k]],
        final(wave).wf(propagator.count()),
{
    let ghost pd = propagator.pattern_data;
    let ghost cell = wave.cells()[index as int];
    let ghost n = propagator.count();
    assert(cell == wave.indices@[index as int]@);
    let len = wave.indices[index].len();
    let mut acc: u128 = 0;
    let mut i: usize = 0;
    let mut chosen: usize = 0;
    let mut found = false;
    assert(cell.take(len as int) =~= cell);
    while i < len
        invariant_except_break
            i <= len,
            !found,
            acc == candidate_weight(cell.take(i as int), pd),
            acc <= draw,
            acc <= i * (u64::MAX as int),
        invariant
            pd == propagator.pattern_data,
            propagator.wf(),
            wave.wf(n),
            n == propagator.count(),
            index < wave.size(),
            cell == wave.indices@[index as int]@,
            len == cell.len(),
            draw < candidate_weight(cell, pd),
            cell.take(len as int) == cell,
        ensures
            found,
            i < len && picks(cell, pd, draw as int, i as int) && chosen == cell[i as int],
        decreases len - i,
    {
        let p = wave.indices[index][i];
        assert(p < n);
        let weight = propagator.pattern_data.patterns[p].weight as u128;
        assert(acc + u64::MAX <= (i + 1) * (u64::MAX as int) <= u128::MAX) by (nonlinear_arith)
            requires
                acc <= i * (u64::MAX as int),
                i < usize::MAX,
                usize::MAX <= u64::MAX,
        ;
        assert(cell.take(i + 1).drop_last() =~= cell.take(i as int));
        acc = acc + weight;
        if draw < acc {
            chosen = p;
            found = true;
            break;
        }
        i += 1;
    }
    let mut single: Vec<usize> = Vec::new();
    single.push(chosen);
    let ghost before = wave.indices@;
    wave.indices[index] = single;
    wave.last_index_collapsed = Some(index);
    assert(wave.cells() =~= cells_of(before).update(index as int, seq![cell[i as int]]));
    assert forall|k: int| #[trigger] picks(cell, pd, draw as int, k) implies wave.cells()[index as int]
        == seq![cell[k]] by {
        lemma_picks_unique(cell, pd, draw as int, i as int, k);
    }
    assert forall|c: int, k: int|
        0 <= c < wave.indices@.len() && 0 <= k < wave.indices@[c]@.len() implies #[trigger] wave.indices@[c]@[k]
        < n by {
        if c != index {
            assert(wave.indices@[c] == before[c]);
        }
    }
}

/// Relies on fastrand::u128: for the range `..n` it returns a value below
/// `n`, and it panics only when the range is empty.
#[verifier::external_body]
fn random_below(n: u128) -> (r: u128)
    requires
        n > 0,
    ensures
        r < n,
{
    fastrand::u128(..n)
}

fn candidate_weight_of(cell: &Vec<usize>, propagator: &PatternPropagator) -> (r: u128)
    requires
        propagator.wf(),
        forall|k: int| 0 <= k < cell@.len() ==> #[trigger] cell@[k] < propagator.count(),
    ensures
        r == candidate_weight(cell@, propagator.pattern_data),
        r >= cell@.len(),
{
    let ghost pd = propagator.pattern_data;
    let mut acc: u128 = 0;
    let mut i: usize = 0;
    while i < cell.len()
        invariant
            pd == propagator.pattern_data,
            propagator.wf(),
            forall|k: int| 0 <= k < cell@.len() ==> #[trigger] cell@[k] < propagator.count(),
            i <= cell@.len(),
            acc == candidate_weight(cell@.take(i as int), pd),
            i <= acc <= i * (u64::MAX as int),
        decreases cell@.len() - i,
    {
        let p = cell[i];
        assert(acc + u64::MAX <= (i + 1) * (u64::MAX as int) <= u128::MAX) by (nonlinear_arith)
            requires
                acc <= i * (u64::MAX as int),
                i < usize::MAX,
                usize::MAX <= u64::MAX,
        ;
        assert(cell@.take(i + 1).drop_last() =~= cell@.take(i as int));
        assert(pd.patterns@[p as int].weight >= 1);
        acc = acc + propagator.pattern_data.patterns[p].weight as u128;
        i += 1;
    }
    assert(cell@.take(i as int) =~= cell@);
    acc
}

/// Collapses the next cell, if any cell still has more than one candidate:
/// the cell that `find_lowest_entropy_index` selects takes one of its
/// candidates, drawn at random in proportion to the weights. Returns whether a
/// cell was collapsed.
pub fn observe(wave: &mut Wave, propagator: &PatternPropagator, entropy_terms: &Vec<u64>) -> (r:
    bool)
    requires
        propagator.wf(),
        old(wave).wf(propagator.count()),
        entropy_terms@.len() == propagator.count(),
    ensures
        final(wave).wf(propagator.count()),
        final(wave).width == old(wave).width,
        final(wave).height == old(wave).height,
        r == lowest_entropy_index(*old(wave), entropy_terms@).is_some(),
        r == (uncollapsed(old(wave).cells()) > 0),
        r ==> {
            let c = lowest_entropy_index(*old(wave), entropy_terms@)->Some_0;
            &&& final(wave).last_index_collapsed == Some(c)
            &&& exists|k: int|
                0 <= k < old(wave).cells()[c as int].len() && final(wave).cells() == old(wave).cells().update(c as int, seq![old(wave).cells()[c as int][k]])
            &&& uncollapsed(final(wave).cells()) == uncollapsed(old(wave).cells()) - 1
        },
        !r ==> final(wave).cells() == old(wave).cells() && final(wave).last_index_collapsed
            == old(wave).last_index_collapsed,
{
    let ghost cells = wave.cells();
    proof {
        lemma_uncollapsed(cells);
    }
    assert(terms_cover(*wave, entropy_terms@));
    let n_cells = wave.indices.len();
    match find_lowest_entropy_index(wave, entropy_terms) {
        Some(i) => {
            assert(cells[i as int] == wave.indices@[i as int]@);
            let total = candidate_weight_of(&wave.indices[i], propagator);
            let draw = random_below(total);
            collapse_wave_entry(i, wave, propagator, draw);
            proof {
                lemma_uncollapsed_update(cells, i as int, seq![cells[i as int][0]]);
                let k = choose|k: int|
                    picks(cells[i as int], propagator.pattern_data, draw as int, k) && wave.cells()
                        == cells.update(i as int, seq![cells[i as int][k]]);
                lemma_uncollapsed_update(cells, i as int, seq![cells[i as int][k]]);
            }
            true
        },
        None => {
            assert(forall|c: int| 0 <= c < cells.len() ==> #[trigger] cells[c].len() <= 1) by {
                assert forall|c: int| 0 <= c < cells.len() implies #[trigger] cells[c].len() <= 1 by {
                    assert(c < n_cells);
                    assert(indices_below(wave.size())[c] as int == c);
                }
            }
            false
        },
    }
}

} // verus!
