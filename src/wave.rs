use vstd::prelude::*;

use crate::build_propagator::PatternPropagator;

verus! {

/// The grid of candidate sets being solved: for each output cell, row-major,
/// the indices of the patterns it may still take, and the cell collapsed last.
pub struct Wave {
    pub width: u32,
    pub height: u32,
    pub indices: Vec<Vec<usize>>,
    pub last_index_collapsed: Option<usize>,
}

/// The candidate sets of a grid as sequences.
pub open spec fn cells_of(indices: Seq<Vec<usize>>) -> Seq<Seq<usize>> {
    indices.map_values(|c: Vec<usize>| c@)
}

impl Wave {
    /// The candidate sets, cell by cell.
    pub open spec fn cells(&self) -> Seq<Seq<usize>> {
        cells_of(self.indices@)
    }

    /// Number of cells.
    pub open spec fn size(&self) -> int {
        self.width as int * self.height as int
    }

    /// One candidate set per cell, every candidate one of `n` patterns, and a
    /// last collapsed cell, if any, inside the grid.
    pub open spec fn wf(&self, n: int) -> bool {
        &&& self.indices@.len() == self.size()
        &&& forall|c: int, k: int|
            0 <= c < self.indices@.len() && 0 <= k < self.indices@[c]@.len() ==> #[trigger] self.indices@[c]@[k]
                < n
        &&& match self.last_index_collapsed {
            Some(l) => l < self.size(),
            None => true,
        }
    }
}

/// `seq![v]` if `b`, else empty.
pub open spec fn when(b: bool, v: int) -> Seq<usize> {
    if b {
        seq![v as usize]
    } else {
        seq![]
    }
}

/// The cells around cell `i` of a row-major `w` x `h` grid, without wrapping:
/// top, top-left, top-right, bottom, bottom-left, bottom-right, left, right,
/// each where it exists.
pub open spec fn neighbors(w: int, h: int, i: int) -> Seq<usize> {
    let row = i / w;
    let col = i % w;
    let top = row > 0;
    let bottom = row < h - 1;
    let left = col > 0;
    let right = col < w - 1;
    when(top, i - w) + when(top && left, i - w - 1) + when(top && right, i - w + 1) + when(
        bottom,
        i + w,
    ) + when(bottom && left, i + w - 1) + when(bottom && right, i + w + 1) + when(left, i - 1)
        + when(right, i + 1)
}

/// Whether cell `j` is a neighbour of cell `i` as far as position goes: in
/// the grid, another cell, at most one column and one row away.
pub open spec fn near(w: int, h: int, i: int, j: int) -> bool {
    &&& 0 <= j < w * h
    &&& j != i
    &&& -1 <= j % w - i % w <= 1
    &&& -1 <= j / w - i / w <= 1
}

/// Whether every cell of `s` is near cell `i`.
pub open spec fn all_near(w: int, h: int, i: int, s: Seq<usize>) -> bool {
    forall|k: int| 0 <= k < s.len() ==> near(w, h, i, #[trigger] s[k] as int)
}

proof fn lemma_all_near_concat(w: int, h: int, i: int, a: Seq<usize>, b: Seq<usize>)
    requires
        all_near(w, h, i, a),
        all_near(w, h, i, b),
    ensures
        all_near(w, h, i, a + b),
{
    assert forall|k: int| 0 <= k < (a + b).len() implies near(w, h, i, #[trigger] (a + b)[k] as int) by {
        if k >= a.len() {
            assert((a + b)[k] == b[k - a.len()]);
        }
    }
}

/// Every neighbour lies in the grid, differs from the cell, and is at most one
/// column and one row away; a grid of two cells or more gives every cell one.
pub proof fn lemma_neighbors(w: int, h: int, i: int)
    requires
        w >= 0,
        h >= 0,
        0 <= i < w * h,
        w * h <= usize::MAX,
    ensures
        w >= 1,
        h >= 1,
        all_near(w, h, i, neighbors(w, h, i)),
        w * h >= 2 ==> neighbors(w, h, i).len() >= 1,
        neighbors(w, h, i).len() <= 8,
{
    assert(w >= 1 && h >= 1) by (nonlinear_arith)
        requires
            w >= 0,
            h >= 0,
            0 <= i < w * h,
    ;
    let row = i / w;
    let col = i % w;
    assert(i == row * w + col && 0 <= col < w && 0 <= row < h) by (nonlinear_arith)
        requires
            w >= 1,
            row == i / w,
            col == i % w,
            0 <= i < w * h,
    ;
    if row > 0 {
        lemma_offset_cell(w, h, i, -1, 0);
        if col > 0 {
            lemma_offset_cell(w, h, i, -1, -1);
        }
        if col < w - 1 {
            lemma_offset_cell(w, h, i, -1, 1);
        }
    }
    if row < h - 1 {
        lemma_offset_cell(w, h, i, 1, 0);
        if col > 0 {
            lemma_offset_cell(w, h, i, 1, -1);
        }
        if col < w - 1 {
            lemma_offset_cell(w, h, i, 1, 1);
        }
    }
    if col > 0 {
        lemma_offset_cell(w, h, i, 0, -1);
    }
    if col < w - 1 {
        lemma_offset_cell(w, h, i, 0, 1);
    }
    let top = row > 0;
    let bottom = row < h - 1;
    let left = col > 0;
    let right = col < w - 1;
    let p1 = when(top, i - w);
    let p2 = when(top && left, i - w - 1);
    let p3 = when(top && right, i - w + 1);
    let p4 = when(bottom, i + w);
    let p5 = when(bottom && left, i + w - 1);
    let p6 = when(bottom && right, i + w + 1);
    let p7 = when(left, i - 1);
    let p8 = when(right, i + 1);
    assert(all_near(w, h, i, p1));
    assert(all_near(w, h, i, p2));
    assert(all_near(w, h, i, p3));
    assert(all_near(w, h, i, p4));
    assert(all_near(w, h, i, p5));
    assert(all_near(w, h, i, p6));
    assert(all_near(w, h, i, p7));
    assert(all_near(w, h, i, p8));
    lemma_all_near_concat(w, h, i, p1, p2);
    lemma_all_near_concat(w, h, i, p1 + p2, p3);
    lemma_all_near_concat(w, h, i, p1 + p2 + p3, p4);
    lemma_all_near_concat(w, h, i, p1 + p2 + p3 + p4, p5);
    lemma_all_near_concat(w, h, i, p1 + p2 + p3 + p4 + p5, p6);
    lemma_all_near_concat(w, h, i, p1 + p2 + p3 + p4 + p5 + p6, p7);
    lemma_all_near_concat(w, h, i, p1 + p2 + p3 + p4 + p5 + p6 + p7, p8);
    if w * h >= 2 {
        assert(w >= 2 || h >= 2) by (nonlinear_arith)
            requires
                w * h >= 2,
                w >= 1,
                h >= 1,
        ;
    }
}

proof fn lemma_offset_cell(w: int, h: int, i: int, dr: int, dc: int)
    requires
        w >= 1,
        0 <= i < w * h,
        -1 <= dr <= 1,
        -1 <= dc <= 1,
        0 <= i / w + dr < h,
        0 <= i % w + dc < w,
    ensures
        0 <= i + dr * w + dc < w * h,
        (i + dr * w + dc) % w == i % w + dc,
        (i + dr * w + dc) / w == i / w + dr,
{
    let row = i / w;
    let col = i % w;
    let j = i + dr * w + dc;
    assert(i == row * w + col) by (nonlinear_arith)
        requires
            w >= 1,
            row == i / w,
            col == i % w,
    ;
    assert(j == (row + dr) * w + (col + dc)) by (nonlinear_arith)
        requires
            i == row * w + col,
            j == i + dr * w + dc,
    ;
    assert(0 <= j < w * h) by (nonlinear_arith)
        requires
            j == (row + dr) * w + (col + dc),
            0 <= row + dr < h,
            0 <= col + dc < w,
    ;
    vstd::arithmetic::div_mod::lemma_fundamental_div_mod_converse(j, w, row + dr, col + dc);
}

/// The cells around cell `index` of a row-major `width` x `height` grid, in
/// the order of `neighbors`.
pub fn calculate_adjacent_indices(width: usize, height: usize, index: usize) -> (r: Vec<usize>)
    requires
        index < width * height,
        width * height <= usize::MAX,
    ensures
        r@ == neighbors(width as int, height as int, index as int),
{
    proof {
        lemma_neighbors(width as int, height as int, index as int);
    }
    assert(index + width + 1 <= width * height + width) by (nonlinear_arith)
        requires
            index < width * height,
    ;
    let mut adjacent_indices: Vec<usize> = Vec::with_capacity(8);
    let row = index / width;
    let col = index % width;
    assert(index == row * width + col && row < height) by (nonlinear_arith)
        requires
            row == index as int / width as int,
            col == index as int % width as int,
            width >= 1,
            index < width * height,
    ;
    assert((row < height - 1 ==> index + width < width * height) && (row > 0 ==> index >= width
        + col)) by (nonlinear_arith)
        requires
            index == row * width + col,
            col < width,
    ;
    let has_top_row = row > 0;
    let has_bottom_row = row < height - 1;
    let has_left_col = col > 0;
    let has_right_col = col < width - 1;
    if has_top_row {
        adjacent_indices.push(index - width);
        if has_left_col {
            adjacent_indices.push(index - width - 1);
        }
        if has_right_col {
            adjacent_indices.push(index - width + 1);
        }
    }
    if has_bottom_row {
        adjacent_indices.push(index + width);
        if has_left_col {
            adjacent_indices.push(index + width - 1);
        }
        if has_right_col {
            adjacent_indices.push(index + width + 1);
        }
    }
    if has_left_col {
        adjacent_indices.push(index - 1);
    }
    if has_right_col {
        adjacent_indices.push(index + 1);
    }
    assert(adjacent_indices@ =~= neighbors(width as int, height as int, index as int));
    adjacent_indices
}

/// Every index below `n`, in increasing order.
pub open spec fn indices_below(n: int) -> Seq<usize> {
    Seq::new(n as nat, |p: int| p as usize)
}

/// Number of cells with more than one candidate left.
pub open spec fn uncollapsed(cells: Seq<Seq<usize>>) -> int
    decreases cells.len(),
{
    if cells.len() == 0 {
        0
    } else {
        uncollapsed(cells.drop_last()) + if cells.last().len() > 1 {
            1int
        } else {
            0
        }
    }
}

/// The uncollapsed count is zero exactly when every cell has at most one
/// candidate, and replacing one cell changes it by that cell's contribution.
pub proof fn lemma_uncollapsed(cells: Seq<Seq<usize>>)
    ensures
        0 <= uncollapsed(cells) <= cells.len(),
        uncollapsed(cells) == 0 <==> forall|c: int| 0 <= c < cells.len() ==> #[trigger] cells[c].len() <= 1,
    decreases cells.len(),
{
    if cells.len() > 0 {
        lemma_uncollapsed(cells.drop_last());
        if uncollapsed(cells) == 0 {
            assert forall|c: int| 0 <= c < cells.len() implies #[trigger] cells[c].len() <= 1 by {
                if c < cells.len() - 1 {
                    assert(cells[c] == cells.drop_last()[c]);
                }
            }
        }
        if forall|c: int| 0 <= c < cells.len() ==> #[trigger] cells[c].len() <= 1 {
            assert forall|c: int| 0 <= c < cells.drop_last().len() implies #[trigger] cells.drop_last()[c].len() <= 1 by {
                assert(cells[c] == cells.drop_last()[c]);
            }
        }
    }
}

/// Replacing cell `c` changes the uncollapsed count by the difference of the
/// old and the new cell's contribution.
pub proof fn lemma_uncollapsed_update(cells: Seq<Seq<usize>>, c: int, s: Seq<usize>)
    requires
        0 <= c < cells.len(),
    ensures
        uncollapsed(cells.update(c, s)) == uncollapsed(cells) - (if cells[c].len() > 1 {
            1int
        } else {
            0
        }) + (if s.len() > 1 {
            1int
        } else {
            0
        }),
    decreases cells.len(),
{
    let u = cells.update(c, s);
    if c == cells.len() - 1 {
        assert(u.drop_last() =~= cells.drop_last());
    } else {
        assert(u.drop_last() =~= cells.drop_last().update(c, s));
        lemma_uncollapsed_update(cells.drop_last(), c, s);
    }
}

/// Cells that are no larger, one for one, leave no more cells uncollapsed.
pub proof fn lemma_uncollapsed_monotone(a: Seq<Seq<usize>>, b: Seq<Seq<usize>>)
    requires
        a.len() == b.len(),
        forall|c: int| 0 <= c < a.len() ==> #[trigger] a[c].len() <= b[c].len(),
    ensures
        uncollapsed(a) <= uncollapsed(b),
    decreases a.len(),
{
    if a.len() > 0 {
        assert forall|c: int| 0 <= c < a.drop_last().len() implies #[trigger] a.drop_last()[c].len()
            <= b.drop_last()[c].len() by {
            assert(a.drop_last()[c] == a[c]);
            assert(b.drop_last()[c] == b[c]);
        }
        lemma_uncollapsed_monotone(a.drop_last(), b.drop_last());
        assert(a.last().len() <= b.last().len());
    }
}

/// A fresh wave over at least two patterns has every cell uncollapsed; over
/// fewer, none.
pub proof fn lemma_fresh_wave_uncollapsed(n: int, size: int)
    requires
        n >= 0,
        size >= 0,
    ensures
        uncollapsed(Seq::new(size as nat, |c: int| indices_below(n))) == if n >= 2 {
            size
        } else {
            0
        },
    decreases size,
{
    if size > 0 {
        lemma_fresh_wave_uncollapsed(n, size - 1);
        assert(Seq::new(size as nat, |c: int| indices_below(n)).drop_last() =~= Seq::new(
            (size - 1) as nat,
            |c: int| indices_below(n),
        ));
    }
}

pub(crate) fn list_below(n: usize) -> (r: Vec<usize>)
    ensures
        r@ == indices_below(n as int),
{
    let mut r: Vec<usize> = Vec::with_capacity(n);
    let mut p: usize = 0;
    while p < n
        invariant
            p <= n,
            r@ == indices_below(p as int),
        decreases n - p,
    {
        r.push(p);
        p += 1;
        assert(r@ =~= indices_below(p as int));
    }
    r
}

/// A wave of `target_image_width` x `target_image_height` cells, each of which
/// may still take every pattern of the catalog, with no cell collapsed yet.
pub fn initialize_wave(
    pattern_propagator: &PatternPropagator,
    target_image_width: u32,
    target_image_height: u32,
) -> (wave: Wave)
    requires
        pattern_propagator.wf(),
        target_image_width as int * target_image_height as int <= usize::MAX,
    ensures
        wave.width == target_image_width,
        wave.height == target_image_height,
        wave.last_index_collapsed.is_none(),
        wave.cells() == Seq::new(
            wave.size() as nat,
            |c: int| indices_below(pattern_propagator.count()),
        ),
        wave.wf(pattern_propagator.count()),
{
    let n = pattern_propagator.pattern_data.patterns.len();
    let cells = target_image_width as usize * target_image_height as usize;
    let mut indices: Vec<Vec<usize>> = Vec::with_capacity(cells);
    let mut c: usize = 0;
    while c < cells
        invariant
            c <= cells,
            n == pattern_propagator.count(),
            indices@.len() == c,
            cells_of(indices@) == Seq::new(c as nat, |k: int| indices_below(n as int)),
        decreases cells - c,
    {
        let cell = list_below(n);
        let ghost prev = indices@;
        indices.push(cell);
        c += 1;
        assert forall|k: int| 0 <= k < c implies #[trigger] cells_of(indices@)[k] == indices_below(
            n as int,
        ) by {
            if k < c - 1 {
                assert(indices@[k] == prev[k]);
                assert(cells_of(prev)[k] == indices_below(n as int));
            }
        }
        assert(cells_of(indices@) =~= Seq::new(c as nat, |k: int| indices_below(n as int)));
    }
    let wave = Wave {
        width: target_image_width,
        height: target_image_height,
        indices,
        last_index_collapsed: None,
    };
    assert forall|c: int, k: int|
        0 <= c < wave.indices@.len() && 0 <= k < wave.indices@[c]@.len() implies #[trigger] wave.indices@[c]@[k]
        < n by {
        assert(wave.cells()[c] == wave.indices@[c]@);
    }
    wave
}

} // verus!
