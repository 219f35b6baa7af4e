use vstd::prelude::*;

use crate::build_propagator::PatternPropagator;
use crate::error::SynthesisError;
use crate::wave::{calculate_adjacent_indices, lemma_neighbors, near, neighbors, Wave};

verus! {

/// Column offset from cell `i` to cell `j` of a grid `w` cells wide.
pub open spec fn offset_x(w: int, i: int, j: int) -> int {
    j % w - i % w
}

/// Row offset from cell `i` to cell `j` of a grid `w` cells wide.
pub open spec fn offset_y(w: int, i: int, j: int) -> int {
    j / w - i / w
}

/// Whether candidate `v` of cell `j` has a candidate of cell `i` that allows
/// it at the offset from `i` to `j`.
pub open spec fn supported(
    cells: Seq<Seq<usize>>,
    prop: PatternPropagator,
    w: int,
    i: int,
    j: int,
    v: usize,
) -> bool {
    exists|k: int|
        0 <= k < cells[i].len() && #[trigger] prop.allows(
            cells[i][k] as int,
            v as int,
            offset_x(w, i, j),
            offset_y(w, i, j),
        )
}

/// Cell `j`'s candidates that cell `i` supports, in their order.
pub open spec fn revised(
    cells: Seq<Seq<usize>>,
    prop: PatternPropagator,
    w: int,
    i: int,
    j: int,
) -> Seq<usize> {
    cells[j].filter(|v: usize| supported(cells, prop, w, i, j, v))
}

/// Whether cell `i` supports every candidate of cell `j`.
pub open spec fn consistent(
    cells: Seq<Seq<usize>>,
    prop: PatternPropagator,
    w: int,
    i: int,
    j: int,
) -> bool {
    forall|l: int| 0 <= l < cells[j].len() ==> #[trigger] supported(cells, prop, w, i, j, cells[j][l])
}

/// Whether (`i`, `j`) is a directed edge of the grid: `j` is a neighbour of `i`.
pub open spec fn is_edge(w: int, h: int, i: int, j: int) -> bool {
    0 <= i < w * h && 0 <= j < w * h && neighbors(w, h, i).contains(j as usize)
}

/// The edges from cell `i` to each of its neighbours, in the order of `neighbors`.
pub open spec fn edges_from(w: int, h: int, i: int) -> Seq<(usize, usize)> {
    neighbors(w, h, i).map_values(|j: usize| (i as usize, j))
}

/// Whether every edge of the grid, except those leaving cell `skip`, is consistent.
pub open spec fn consistent_except(wave: Wave, prop: PatternPropagator, skip: int) -> bool {
    forall|i: int, j: int|
        #[trigger] is_edge(wave.width as int, wave.height as int, i, j) && i != skip ==> consistent(
            wave.cells(),
            prop,
            wave.width as int,
            i,
            j,
        )
}

/// Whether every edge of the grid is consistent.
pub open spec fn arc_consistent(wave: Wave, prop: PatternPropagator) -> bool {
    forall|i: int, j: int|
        #[trigger] is_edge(wave.width as int, wave.height as int, i, j) ==> consistent(
            wave.cells(),
            prop,
            wave.width as int,
            i,
            j,
        )
}

/// Whether every pattern may sit next to every pattern, itself included, in
/// every direction.
pub open spec fn allows_everything(prop: PatternPropagator) -> bool {
    forall|a: int, b: int, dx: int, dy: int|
        0 <= a < prop.count() && 0 <= b < prop.count() && -1 <= dx <= 1 && -1 <= dy <= 1 ==> #[trigger] prop.allows(
            a,
            b,
            dx,
            dy,
        )
}

/// Whether no pattern may sit next to any pattern, itself included, in any
/// direction.
pub open spec fn allows_nothing(prop: PatternPropagator) -> bool {
    forall|a: int, b: int, dx: int, dy: int|
        0 <= a < prop.count() && 0 <= b < prop.count() && -1 <= dx <= 1 && -1 <= dy <= 1 && (dx != 0
            || dy != 0) ==> !#[trigger] prop.allows(a, b, dx, dy)
}

/// Whether every candidate of `new` is one of `old`, and `new` has at most
/// as many.
pub open spec fn shrunk(new: Seq<usize>, old: Seq<usize>) -> bool {
    &&& new.len() <= old.len()
    &&& forall|k: int| 0 <= k < new.len() ==> old.contains(#[trigger] new[k])
}

/// The number of candidates over all cells.
pub open spec fn total_candidates(cells: Seq<Seq<usize>>) -> int
    decreases cells.len(),
{
    if cells.len() == 0 {
        0
    } else {
        total_candidates(cells.drop_last()) + cells.last().len()
    }
}

proof fn lemma_total_candidates_update(cells: Seq<Seq<usize>>, c: int, s: Seq<usize>)
    requires
        0 <= c < cells.len(),
    ensures
        total_candidates(cells.update(c, s)) == total_candidates(cells) - cells[c].len() + s.len(),
        total_candidates(cells) >= 0,
    decreases cells.len(),
{
    let u = cells.update(c, s);
    if c == cells.len() - 1 {
        assert(u.drop_last() =~= cells.drop_last());
        lemma_total_candidates_nonneg(cells.drop_last());
    } else {
        assert(u.drop_last() =~= cells.drop_last().update(c, s));
        lemma_total_candidates_update(cells.drop_last(), c, s);
    }
}

proof fn lemma_total_candidates_nonneg(cells: Seq<Seq<usize>>)
    ensures
        total_candidates(cells) >= 0,
    decreases cells.len(),
{
    if cells.len() > 0 {
        lemma_total_candidates_nonneg(cells.drop_last());
    }
}

proof fn lemma_filter_all(s: Seq<usize>, pred: spec_fn(usize) -> bool)
    requires
        forall|k: int| 0 <= k < s.len() ==> #[trigger] pred(s[k]),
    ensures
        s.filter(pred) == s,
    decreases s.len(),
{
    reveal(Seq::filter);
    if s.len() > 0 {
        assert forall|k: int| 0 <= k < s.drop_last().len() implies #[trigger] pred(s.drop_last()[k]) by {
            assert(s.drop_last()[k] == s[k]);
        }
        lemma_filter_all(s.drop_last(), pred);
        assert(pred(s[s.len() - 1]));
        assert(s.drop_last().push(s.last()) =~= s);
    }
}

proof fn lemma_filter_none(s: Seq<usize>, pred: spec_fn(usize) -> bool)
    requires
        forall|k: int| 0 <= k < s.len() ==> !#[trigger] pred(s[k]),
    ensures
        s.filter(pred).len() == 0,
    decreases s.len(),
{
    reveal(Seq::filter);
    if s.len() > 0 {
        assert forall|k: int| 0 <= k < s.drop_last().len() implies !#[trigger] pred(s.drop_last()[k]) by {
            assert(s.drop_last()[k] == s[k]);
        }
        lemma_filter_none(s.drop_last(), pred);
        assert(!pred(s[s.len() - 1]));
    }
}

proof fn lemma_filter_step(s: Seq<usize>, pred: spec_fn(usize) -> bool, l: int)
    requires
        0 <= l < s.len(),
    ensures
        s.take(l + 1).filter(pred) == if pred(s[l]) {
            s.take(l).filter(pred).push(s[l])
        } else {
            s.take(l).filter(pred)
        },
{
    reveal(Seq::filter);
    assert(s.take(l + 1).drop_last() =~= s.take(l));
}

/// Pushes the edges from cell `index` to each of its neighbours onto the stack.
pub fn put_wave_neighbors_on_stack(
    index: usize,
    width: usize,
    height: usize,
    index_stack: &mut Vec<(usize, usize)>,
)
    requires
        index < width * height,
        width * height <= usize::MAX,
    ensures
        final(index_stack)@ == old(index_stack)@ + edges_from(
            width as int,
            height as int,
            index as int,
        ),
{
    let adjacent = calculate_adjacent_indices(width, height, index);
    let ghost start = index_stack@;
    let ghost edges = edges_from(width as int, height as int, index as int);
    let mut k: usize = 0;
    while k < adjacent.len()
        invariant
            adjacent@ == neighbors(width as int, height as int, index as int),
            edges == edges_from(width as int, height as int, index as int),
            k <= adjacent@.len(),
            index_stack@ == start + edges.take(k as int),
        decreases adjacent@.len() - k,
    {
        index_stack.push((index, adjacent[k]));
        k += 1;
        assert(index_stack@ =~= start + edges.take(k as int));
    }
    assert(edges.take(k as int) =~= edges);
}

proof fn lemma_filter_subset(s: Seq<usize>, pred: spec_fn(usize) -> bool)
    ensures
        s.filter(pred).len() <= s.len(),
        forall|k: int|
            0 <= k < s.filter(pred).len() ==> s.contains(#[trigger] s.filter(pred)[k]) && pred(
                s.filter(pred)[k],
            ),
    decreases s.len(),
{
    reveal(Seq::filter);
    if s.len() > 0 {
        let rest = s.drop_last();
        lemma_filter_subset(rest, pred);
        let f = s.filter(pred);
        assert forall|k: int| 0 <= k < f.len() implies s.contains(#[trigger] f[k]) && pred(f[k]) by {
            if k < rest.filter(pred).len() {
                let x = rest.filter(pred)[k];
                assert(f[k] == x);
                let m = choose|m: int| 0 <= m < rest.len() && rest[m] == x;
                assert(s[m] == x);
            } else {
                assert(f[k] == s[s.len() - 1]);
            }
        }
    }
}

proof fn lemma_filter_full(s: Seq<usize>, pred: spec_fn(usize) -> bool)
    requires
        s.filter(pred).len() == s.len(),
    ensures
        forall|k: int| 0 <= k < s.len() ==> #[trigger] pred(s[k]),
    decreases s.len(),
{
    reveal(Seq::filter);
    if s.len() > 0 {
        let rest = s.drop_last();
        lemma_filter_subset(rest, pred);
        if !pred(s.last()) {
            assert(false);
        }
        lemma_filter_full(rest, pred);
        assert forall|k: int| 0 <= k < s.len() implies #[trigger] pred(s[k]) by {
            if k < rest.len() {
                assert(s[k] == rest[k]);
            }
        }
    }
}

/// An edge joins two distinct cells of the grid that are at most one column
/// and one row apart.
proof fn lemma_edge(w: int, h: int, i: int, j: int)
    requires
        w >= 0,
        h >= 0,
        w * h <= usize::MAX,
        is_edge(w, h, i, j),
    ensures
        near(w, h, i, j),
        j == neighbors(w, h, i)[neighbors(w, h, i).index_of(j as usize)] as int,
        offset_x(w, i, j) != 0 || offset_y(w, i, j) != 0,
{
    lemma_neighbors(w, h, i);
    let k = neighbors(w, h, i).index_of(j as usize);
    assert(near(w, h, i, neighbors(w, h, i)[k] as int));
    if offset_x(w, i, j) == 0 && offset_y(w, i, j) == 0 {
        assert(i == (i / w) * w + i % w && j == (j / w) * w + j % w) by (nonlinear_arith)
            requires
                w >= 1,
        ;
    }
}

proof fn lemma_edges_from_contains(w: int, h: int, i: int, j: int)
    requires
        w >= 0,
        h >= 0,
        w * h <= usize::MAX,
        is_edge(w, h, i, j),
    ensures
        edges_from(w, h, i).contains((i as usize, j as usize)),
{
    lemma_edge(w, h, i, j);
    let k = neighbors(w, h, i).index_of(j as usize);
    assert(edges_from(w, h, i)[k] == (i as usize, j as usize));
}

/// The invariant of the work stack: every edge is consistent or waits on the stack.
pub open spec fn stack_covers(
    cells: Seq<Seq<usize>>,
    prop: PatternPropagator,
    w: int,
    h: int,
    stack: Seq<(usize, usize)>,
) -> bool {
    forall|a: int, b: int|
        #[trigger] is_edge(w, h, a, b) ==> consistent(cells, prop, w, a, b) || stack.contains(
            (a as usize, b as usize),
        )
}

proof fn lemma_stack_covers_after_revision(
    cells0: Seq<Seq<usize>>,
    cells1: Seq<Seq<usize>>,
    prop: PatternPropagator,
    w: int,
    h: int,
    i: int,
    j: int,
    stack0: Seq<(usize, usize)>,
    stack1: Seq<(usize, usize)>,
)
    requires
        w >= 0,
        h >= 0,
        w * h <= usize::MAX,
        cells0.len() == w * h,
        is_edge(w, h, i, j),
        cells1 == cells0.update(j, revised(cells0, prop, w, i, j)),
        stack0.len() >= 1,
        stack0.last() == (i as usize, j as usize),
        stack_covers(cells0, prop, w, h, stack0),
        stack1 == stack0.drop_last() + edges_from(w, h, j),
    ensures
        stack_covers(cells1, prop, w, h, stack1),
{
    lemma_edge(w, h, i, j);
    let pred = |v: usize| supported(cells0, prop, w, i, j, v);
    lemma_filter_subset(cells0[j], pred);
    assert forall|a: int, b: int| #[trigger] is_edge(w, h, a, b) implies consistent(
        cells1,
        prop,
        w,
        a,
        b,
    ) || stack1.contains((a as usize, b as usize)) by {
        lemma_edge(w, h, a, b);
        if a == j {
            lemma_edges_from_contains(w, h, j, b);
            let k = edges_from(w, h, j).index_of((a as usize, b as usize));
            assert(stack1[stack0.len() - 1 + k] == (a as usize, b as usize));
        } else if a == i && b == j {
            assert(cells1[i] == cells0[i]);
            assert forall|l: int| 0 <= l < cells1[j].len() implies #[trigger] supported(
                cells1,
                prop,
                w,
                i,
                j,
                cells1[j][l],
            ) by {
                assert(pred(cells1[j][l]));
            }
        } else if stack0.contains((a as usize, b as usize)) {
            let k = stack0.index_of((a as usize, b as usize));
            assert(k != stack0.len() - 1);
            assert(stack1[k] == (a as usize, b as usize));
        } else {
            assert(consistent(cells0, prop, w, a, b));
            assert(cells1[a] == cells0[a]);
            if b == j {
                assert forall|l: int| 0 <= l < cells1[b].len() implies #[trigger] supported(
                    cells1,
                    prop,
                    w,
                    a,
                    b,
                    cells1[b][l],
                ) by {
                    let v = cells1[b][l];
                    assert(cells0[b].contains(v));
                    let m = cells0[b].index_of(v);
                    assert(supported(cells0, prop, w, a, b, cells0[b][m]));
                }
            } else {
                assert(cells1[b] == cells0[b]);
                assert forall|l: int| 0 <= l < cells1[b].len() implies #[trigger] supported(
                    cells1,
                    prop,
                    w,
                    a,
                    b,
                    cells1[b][l],
                ) by {
                    assert(supported(cells0, prop, w, a, b, cells0[b][l]));
                }
            }
        }
    }
}

proof fn lemma_stack_covers_after_pop(
    cells: Seq<Seq<usize>>,
    prop: PatternPropagator,
    w: int,
    h: int,
    i: int,
    j: int,
    stack0: Seq<(usize, usize)>,
)
    requires
        stack0.len() >= 1,
        stack0.last() == (i as usize, j as usize),
        stack_covers(cells, prop, w, h, stack0),
        consistent(cells, prop, w, i, j),
        0 <= i < w * h,
        0 <= j < w * h,
        w * h <= usize::MAX,
    ensures
        stack_covers(cells, prop, w, h, stack0.drop_last()),
{
    assert forall|a: int, b: int| #[trigger] is_edge(w, h, a, b) implies consistent(
        cells,
        prop,
        w,
        a,
        b,
    ) || stack0.drop_last().contains((a as usize, b as usize)) by {
        if !consistent(cells, prop, w, a, b) {
            let k = stack0.index_of((a as usize, b as usize));
            if k == stack0.len() - 1 {
                assert(a as usize == i as usize && b as usize == j as usize);
                assert(a == i && b == j);
            }
            assert(stack0.drop_last()[k] == (a as usize, b as usize));
        }
    }
}

fn has_support(
    wave: &Wave,
    propagator: &PatternPropagator,
    i: usize,
    j: usize,
    v: usize,
    dx: i64,
    dy: i64,
) -> (r: bool)
    requires
        propagator.wf(),
        wave.wf(propagator.count()),
        i < wave.size(),
        v < propagator.count(),
        wave.width >= 1,
        dx == offset_x(wave.width as int, i as int, j as int),
        dy == offset_y(wave.width as int, i as int, j as int),
    ensures
        r == supported(wave.cells(), *propagator, wave.width as int, i as int, j as int, v),
{
    let ghost cells = wave.cells();
    let ghost w = wave.width as int;
    let cell = &wave.indices[i];
    assert(cell@ == cells[i as int]);
    let mut k: usize = 0;
    while k < cell.len()
        invariant
            propagator.wf(),
            wave.wf(propagator.count()),
            cell@ == cells[i as int],
            cells == wave.cells(),
            w == wave.width,
            i < wave.size(),
            cell == &wave.indices@[i as int],
            v < propagator.count(),
            dx == offset_x(w, i as int, j as int),
            dy == offset_y(w, i as int, j as int),
            k <= cell@.len(),
            forall|m: int|
                0 <= m < k ==> !#[trigger] propagator.allows(cells[i as int][m] as int, v as int, dx as int, dy as int),
        decreases cell@.len() - k,
    {
        let u = cell[k];
        if propagator.compatible(u, v, dx, dy) {
            assert(propagator.allows(
                cells[i as int][k as int] as int,
                v as int,
                offset_x(w, i as int, j as int),
                offset_y(w, i as int, j as int),
            ));
            return true;
        }
        k += 1;
    }
    false
}

fn revise(wave: &Wave, propagator: &PatternPropagator, i: usize, j: usize, dx: i64, dy: i64) -> (kept:
    Vec<usize>)
    requires
        propagator.wf(),
        wave.wf(propagator.count()),
        i < wave.size(),
        j < wave.size(),
        wave.width >= 1,
        dx == offset_x(wave.width as int, i as int, j as int),
        dy == offset_y(wave.width as int, i as int, j as int),
    ensures
        kept@ == revised(wave.cells(), *propagator, wave.width as int, i as int, j as int),
{
    let ghost cells = wave.cells();
    let ghost w = wave.width as int;
    let ghost pred = |v: usize| supported(cells, *propagator, w, i as int, j as int, v);
    let cell = &wave.indices[j];
    assert(cell@ == cells[j as int]);
    let mut kept: Vec<usize> = Vec::new();
    let mut l: usize = 0;
    while l < cell.len()
        invariant
            propagator.wf(),
            wave.wf(propagator.count()),
            cells == wave.cells(),
            w == wave.width,
            pred == (|v: usize| supported(cells, *propagator, w, i as int, j as int, v)),
            i < wave.size(),
            j < wave.size(),
            wave.width >= 1,
            cell == &wave.indices@[j as int],
            cell@ == cells[j as int],
            dx == offset_x(w, i as int, j as int),
            dy == offset_y(w, i as int, j as int),
            l <= cell@.len(),
            kept@ == cell@.take(l as int).filter(pred),
        decreases cell@.len() - l,
    {
        let v = cell[l];
        proof {
            lemma_filter_step(cell@, pred, l as int);
        }
        if has_support(wave, propagator, i, j, v, dx, dy) {
            kept.push(v);
        }
        l += 1;
    }
    assert(cell@.take(l as int) =~= cell@);
    kept
}

/// Whether every candidate of every cell is below `n`.
pub open spec fn candidates_below(cells: Seq<Seq<usize>>, n: int) -> bool {
    forall|c: int, k: int| 0 <= c < cells.len() && 0 <= k < cells[c].len() ==> #[trigger] cells[c][k] < n
}

proof fn lemma_everything_supported(
    cells: Seq<Seq<usize>>,
    prop: PatternPropagator,
    w: int,
    h: int,
    i: int,
    j: int,
)
    requires
        w >= 0,
        h >= 0,
        w * h <= usize::MAX,
        cells.len() == w * h,
        is_edge(w, h, i, j),
        allows_everything(prop),
        candidates_below(cells, prop.count()),
        cells[i].len() > 0,
    ensures
        forall|k: int| 0 <= k < cells[j].len() ==> #[trigger] supported(cells, prop, w, i, j, cells[j][k]),
{
    lemma_edge(w, h, i, j);
    assert forall|k: int| 0 <= k < cells[j].len() implies #[trigger] supported(cells, prop, w, i, j, cells[j][k]) by {
        let u = cells[i][0];
        let v = cells[j][k];
        assert(u < prop.count());
        assert(v < prop.count());
        assert(prop.allows(u as int, v as int, offset_x(w, i, j), offset_y(w, i, j)));
    }
}

proof fn lemma_nothing_supported(
    cells: Seq<Seq<usize>>,
    prop: PatternPropagator,
    w: int,
    h: int,
    i: int,
    j: int,
)
    requires
        w >= 0,
        h >= 0,
        w * h <= usize::MAX,
        cells.len() == w * h,
        is_edge(w, h, i, j),
        allows_nothing(prop),
        candidates_below(cells, prop.count()),
    ensures
        forall|k: int| 0 <= k < cells[j].len() ==> !#[trigger] supported(cells, prop, w, i, j, cells[j][k]),
{
    lemma_edge(w, h, i, j);
    assert forall|k: int| 0 <= k < cells[j].len() implies !#[trigger] supported(cells, prop, w, i, j, cells[j][k]) by {
        let v = cells[j][k];
        assert(v < prop.count());
        assert forall|m: int| 0 <= m < cells[i].len() implies !#[trigger] prop.allows(
            cells[i][m] as int,
            v as int,
            offset_x(w, i, j),
            offset_y(w, i, j),
        ) by {
            assert(cells[i][m] < prop.count());
        }
    }
}

proof fn lemma_replace_shrunk(
    cells0: Seq<Seq<usize>>,
    start: Seq<Seq<usize>>,
    j: int,
    kept: Seq<usize>,
    n: int,
)
    requires
        cells0.len() == start.len(),
        0 <= j < cells0.len(),
        forall|c: int| 0 <= c < start.len() ==> shrunk(#[trigger] cells0[c], start[c]),
        candidates_below(cells0, n),
        shrunk(kept, cells0[j]),
    ensures
        forall|c: int| 0 <= c < start.len() ==> shrunk(#[trigger] cells0.update(j, kept)[c], start[c]),
        candidates_below(cells0.update(j, kept), n),
{
    let cells1 = cells0.update(j, kept);
    assert forall|c: int| 0 <= c < start.len() implies shrunk(#[trigger] cells1[c], start[c]) by {
        if c == j {
            assert(shrunk(cells0[c], start[c]));
            assert forall|k: int| 0 <= k < cells1[c].len() implies start[c].contains(#[trigger] cells1[c][k]) by {
                let x = cells1[c][k];
                let m = cells0[c].index_of(x);
                assert(start[c].contains(cells0[c][m]));
            }
        }
    }
    assert forall|c: int, k: int| 0 <= c < cells1.len() && 0 <= k < cells1[c].len() implies #[trigger] cells1[c][k] < n by {
        if c == j {
            let x = cells1[c][k];
            let m = cells0[c].index_of(x);
            assert(cells0[c][m] < n);
        }
    }
}

/// Whether every candidate of every cell of `sub` is a candidate of the same
/// cell of `cells`.
pub open spec fn contained(sub: Seq<Seq<usize>>, cells: Seq<Seq<usize>>) -> bool {
    forall|c: int, k: int|
        0 <= c < sub.len() && 0 <= k < sub[c].len() ==> cells[c].contains(#[trigger] sub[c][k])
}

/// Whether `sub` keeps, in every cell, a nonempty part of that cell's
/// candidates in `cells`, and every edge of the grid is consistent in `sub`:
/// a choice of candidates that no propagation step can remove.
pub open spec fn consistent_sub_wave(
    sub: Seq<Seq<usize>>,
    cells: Seq<Seq<usize>>,
    prop: PatternPropagator,
    w: int,
    h: int,
) -> bool {
    &&& sub.len() == cells.len()
    &&& forall|c: int| 0 <= c < sub.len() ==> #[trigger] sub[c].len() > 0
    &&& contained(sub, cells)
    &&& forall|i: int, j: int| #[trigger] is_edge(w, h, i, j) ==> consistent(sub, prop, w, i, j)
}

/// Revising cell `j` against cell `i` keeps every candidate of a consistent
/// sub-wave, so the revised cell is not empty.
proof fn lemma_sub_wave_survives_revision(
    sub: Seq<Seq<usize>>,
    start: Seq<Seq<usize>>,
    cells0: Seq<Seq<usize>>,
    prop: PatternPropagator,
    w: int,
    h: int,
    i: int,
    j: int,
)
    requires
        w >= 0,
        h >= 0,
        w * h <= usize::MAX,
        cells0.len() == w * h,
        start.len() == w * h,
        consistent_sub_wave(sub, start, prop, w, h),
        contained(sub, cells0),
        is_edge(w, h, i, j),
    ensures
        contained(sub, cells0.update(j, revised(cells0, prop, w, i, j))),
        revised(cells0, prop, w, i, j).len() > 0,
{
    lemma_edge(w, h, i, j);
    let pred = |v: usize| supported(cells0, prop, w, i, j, v);
    let rev = revised(cells0, prop, w, i, j);
    assert(consistent(sub, prop, w, i, j));
    assert forall|k: int| 0 <= k < sub[j].len() implies rev.contains(#[trigger] sub[j][k]) by {
        let v = sub[j][k];
        assert(supported(sub, prop, w, i, j, sub[j][k]));
        let m = choose|m: int|
            0 <= m < sub[i].len() && #[trigger] prop.allows(
                sub[i][m] as int,
                v as int,
                offset_x(w, i, j),
                offset_y(w, i, j),
            );
        assert(cells0[i].contains(sub[i][m]));
        let q = cells0[i].index_of(sub[i][m]);
        assert(prop.allows(cells0[i][q] as int, v as int, offset_x(w, i, j), offset_y(w, i, j)));
        assert(pred(v));
        assert(cells0[j].contains(v));
        let p = cells0[j].index_of(v);
        cells0[j].lemma_filter_contains(pred, p);
    }
    let cells1 = cells0.update(j, rev);
    assert forall|c: int, k: int|
        0 <= c < sub.len() && 0 <= k < sub[c].len() implies cells1[c].contains(#[trigger] sub[c][k]) by {
        if c != j {
            assert(cells1[c] == cells0[c]);
        }
    }
    assert(sub[j].len() > 0);
    assert(rev.contains(sub[j][0]));
}

/// Restores arc consistency after a collapse. Starting from the edges that
/// leave the last collapsed cell, it pops an edge (`i`, `j`) at a time and
/// removes from cell `j` every candidate that no candidate of cell `i` allows
/// at the offset from `i` to `j`. A cell left without candidates is a
/// contradiction; a cell that lost candidates puts the edges leaving it on the
/// stack. Cells only ever lose candidates.
pub fn propagate(wave: &mut Wave, propagator: &PatternPropagator) -> (r: Result<(), SynthesisError>)
    requires
        propagator.wf(),
        old(wave).wf(propagator.count()),
    ensures
        final(wave).wf(propagator.count()),
        final(wave).width == old(wave).width,
        final(wave).height == old(wave).height,
        final(wave).last_index_collapsed == old(wave).last_index_collapsed,
        forall|c: int|
            0 <= c < old(wave).size() ==> shrunk(
                #[trigger] final(wave).cells()[c],
                old(wave).cells()[c],
            ),
        match r {
            Ok(()) => forall|c: int|
                0 <= c < old(wave).size() && old(wave).cells()[c].len() > 0 ==> #[trigger] final(wave).cells()[c].len() > 0,
            Err(e) => e == SynthesisError::Contradiction && exists|c: int|
                0 <= c < old(wave).size() && #[trigger] final(wave).cells()[c].len() == 0,
        },
        old(wave).last_index_collapsed.is_none() ==> r is Ok && final(wave).cells() == old(wave).cells(),
        r is Ok && old(wave).last_index_collapsed.is_some() && consistent_except(
            *old(wave),
            *propagator,
            old(wave).last_index_collapsed->Some_0 as int,
        ) ==> arc_consistent(*final(wave), *propagator),
        allows_everything(*propagator) && (forall|c: int|
            0 <= c < old(wave).size() ==> #[trigger] old(wave).cells()[c].len() > 0) ==> r is Ok
            && final(wave).cells() == old(wave).cells(),
        allows_nothing(*propagator) && old(wave).last_index_collapsed.is_some() && old(wave).size() >= 2 ==> r is Err,
        forall|sub: Seq<Seq<usize>>|
            #[trigger] consistent_sub_wave(
                sub,
                old(wave).cells(),
                *propagator,
                old(wave).width as int,
                old(wave).height as int,
            ) ==> r is Ok && contained(sub, final(wave).cells()),
{
    let ghost start = *wave;
    let ghost start_cells = wave.cells();
    let ghost n = propagator.count();
    let width = wave.width as usize;
    let height = wave.height as usize;
    assert(wave.indices@.len() == wave.indices.len());
    let last = match wave.last_index_collapsed {
        Some(l) => l,
        None => {
            return Ok(());
        },
    };
    let ghost w = width as int;
    let ghost h = height as int;
    let ghost hyp = consistent_except(start, *propagator, last as int);
    let ghost everything = allows_everything(*propagator) && (forall|c: int|
        0 <= c < start.size() ==> #[trigger] start_cells[c].len() > 0);
    let ghost nothing = allows_nothing(*propagator) && start.size() >= 2;
    let mut index_stack: Vec<(usize, usize)> = Vec::new();
    put_wave_neighbors_on_stack(last, width, height, &mut index_stack);
    proof {
        lemma_neighbors(w, h, last as int);
        assert(index_stack@ =~= edges_from(w, h, last as int));
        if hyp {
            assert forall|a: int, b: int| #[trigger] is_edge(w, h, a, b) implies consistent(
                start_cells,
                *propagator,
                w,
                a,
                b,
            ) || index_stack@.contains((a as usize, b as usize)) by {
                if a == last {
                    lemma_edges_from_contains(w, h, a, b);
                }
            }
        }
    }
    while index_stack.len() > 0
        invariant
            start == *old(wave),
            start.last_index_collapsed == Some(last),
            start_cells == start.cells(),
            hyp == consistent_except(start, *propagator, last as int),
            everything == (allows_everything(*propagator) && (forall|c: int|
                0 <= c < start.size() ==> #[trigger] start_cells[c].len() > 0)),
            nothing == (allows_nothing(*propagator) && start.size() >= 2),
            propagator.wf(),
            n == propagator.count(),
            wave.wf(n),
            wave.width == start.width,
            wave.height == start.height,
            wave.last_index_collapsed == start.last_index_collapsed,
            w == width,
            h == height,
            width == wave.width,
            height == wave.height,
            w * h == wave.size(),
            w * h <= usize::MAX,
            start_cells.len() == w * h,
            last < w * h,
            forall|c: int|
                0 <= c < start.size() ==> shrunk(#[trigger] wave.cells()[c], start_cells[c]),
            forall|c: int|
                0 <= c < start.size() && start_cells[c].len() > 0 ==> #[trigger] wave.cells()[c].len()
                    > 0,
            forall|k: int|
                0 <= k < index_stack@.len() ==> is_edge(
                    w,
                    h,
                    #[trigger] index_stack@[k].0 as int,
                    index_stack@[k].1 as int,
                ),
            hyp ==> stack_covers(wave.cells(), *propagator, w, h, index_stack@),
            everything ==> wave.cells() == start_cells,
            nothing ==> index_stack@ == edges_from(w, h, last as int) && index_stack@.len() >= 1,
            forall|sub: Seq<Seq<usize>>|
                #[trigger] consistent_sub_wave(sub, start_cells, *propagator, w, h) ==> contained(
                    sub,
                    wave.cells(),
                ),
        decreases total_candidates(wave.cells()), index_stack@.len(),
    {
        let ghost cells0 = wave.cells();
        let ghost stack0 = index_stack@;
        let (i, j) = match index_stack.pop() {
            Some(edge) => edge,
            None => {
                return Ok(());
            },
        };
        assert(stack0.last() == (i, j));
        assert(index_stack@ == stack0.drop_last());
        assert(is_edge(w, h, stack0[stack0.len() - 1].0 as int, stack0[stack0.len() - 1].1 as int));
        proof {
            lemma_edge(w, h, i as int, j as int);
        }
        assert((i as int) / w < h && (j as int) / w < h) by (nonlinear_arith)
            requires
                i < w * h,
                j < w * h,
                w >= 1,
        ;
        let dx = (j % width) as i64 - (i % width) as i64;
        let dy = (j / width) as i64 - (i / width) as i64;
        let kept = revise(wave, propagator, i, j, dx, dy);
        let ghost pred = |v: usize| supported(cells0, *propagator, w, i as int, j as int, v);
        proof {
            lemma_filter_subset(cells0[j as int], pred);
            assert(candidates_below(cells0, n as int)) by {
                assert forall|c: int, k: int| 0 <= c < cells0.len() && 0 <= k < cells0[c].len() implies #[trigger] cells0[c][k] < n by {
                    assert(wave.indices@[c]@[k] < n);
                }
            }
            if everything {
                assert(start_cells[i as int].len() > 0);
                lemma_everything_supported(cells0, *propagator, w, h, i as int, j as int);
                lemma_filter_all(cells0[j as int], pred);
            }
            if nothing {
                lemma_nothing_supported(cells0, *propagator, w, h, i as int, j as int);
                lemma_filter_none(cells0[j as int], pred);
            }
        }
        assert(cells0[j as int] == wave.indices@[j as int]@);
        if kept.len() < wave.indices[j].len() {
            let empty = kept.len() == 0;
            let ghost before = wave.indices@;
            let ghost kept_view = kept@;
            wave.indices[j] = kept;
            let ghost cells1 = wave.cells();
            assert(cells1 =~= cells0.update(j as int, kept_view));
            proof {
                lemma_total_candidates_update(cells0, j as int, kept_view);
                lemma_replace_shrunk(cells0, start_cells, j as int, kept_view, n as int);
                assert forall|c: int, k: int|
                    0 <= c < wave.indices@.len() && 0 <= k < wave.indices@[c]@.len() implies #[trigger] wave.indices@[c]@[k]
                    < n by {
                    assert(cells1[c] == wave.indices@[c]@);
                }
            }
            if empty {
                assert(wave.cells()[j as int].len() == 0);
                assert forall|sub: Seq<Seq<usize>>|
                    #[trigger] consistent_sub_wave(sub, start_cells, *propagator, w, h) implies false by {
                    lemma_sub_wave_survives_revision(sub, start_cells, cells0, *propagator, w, h, i as int, j as int);
                }
                return Err(SynthesisError::Contradiction);
            }
            assert forall|sub: Seq<Seq<usize>>|
                #[trigger] consistent_sub_wave(sub, start_cells, *propagator, w, h) implies contained(
                sub,
                wave.cells(),
            ) by {
                lemma_sub_wave_survives_revision(sub, start_cells, cells0, *propagator, w, h, i as int, j as int);
            }
            assert(total_candidates(wave.cells()) < total_candidates(cells0));
            proof {
                lemma_total_candidates_nonneg(wave.cells());
            }
            put_wave_neighbors_on_stack(j, width, height, &mut index_stack);
            proof {
                if hyp {
                    lemma_stack_covers_after_revision(
                        cells0,
                        cells1,
                        *propagator,
                        w,
                        h,
                        i as int,
                        j as int,
                        stack0,
                        index_stack@,
                    );
                }
                lemma_neighbors(w, h, j as int);
                assert forall|k: int| 0 <= k < index_stack@.len() implies is_edge(
                    w,
                    h,
                    #[trigger] index_stack@[k].0 as int,
                    index_stack@[k].1 as int,
                ) by {
                    if k < stack0.len() - 1 {
                        assert(index_stack@[k] == stack0[k]);
                    } else {
                        let m = k - (stack0.len() - 1);
                        assert(index_stack@[k] == edges_from(w, h, j as int)[m]);
                        assert(neighbors(w, h, j as int).contains(neighbors(w, h, j as int)[m]));
                    }
                }
            }
        } else {
            if kept.len() == 0 {
                assert(wave.cells()[j as int].len() == 0);
                assert forall|sub: Seq<Seq<usize>>|
                    #[trigger] consistent_sub_wave(sub, start_cells, *propagator, w, h) implies false by {
                    lemma_sub_wave_survives_revision(sub, start_cells, cells0, *propagator, w, h, i as int, j as int);
                }
                return Err(SynthesisError::Contradiction);
            }
            assert(wave.cells() == cells0);
            assert(index_stack@.len() < stack0.len());
            proof {
                lemma_total_candidates_nonneg(cells0);
                lemma_filter_full(cells0[j as int], pred);
                assert forall|l: int| 0 <= l < cells0[j as int].len() implies #[trigger] supported(
                    cells0,
                    *propagator,
                    w,
                    i as int,
                    j as int,
                    cells0[j as int][l],
                ) by {
                    assert(pred(cells0[j as int][l]));
                }
                if hyp {
                    lemma_stack_covers_after_pop(cells0, *propagator, w, h, i as int, j as int, stack0);
                }
                assert forall|k: int| 0 <= k < index_stack@.len() implies is_edge(
                    w,
                    h,
                    #[trigger] index_stack@[k].0 as int,
                    index_stack@[k].1 as int,
                ) by {
                    assert(index_stack@[k] == stack0[k]);
                }
            }
        }
    }
    Ok(())
}

} // verus!
