use vstd::prelude::*;

verus! {

/// A tile of the exemplar in row-major order, with the number of exemplar
/// positions that produce it.
#[derive(Clone, Debug)]
pub struct Pattern {
    pub pixels: Vec<u32>,
    pub weight: u64,
}

/// The deduplicated catalog of patterns of one exemplar at one pattern size.
pub struct PatternData {
    pub image_height: u32,
    pub image_width: u32,
    pub pattern_height: u32,
    pub pattern_width: u32,
    pub patterns: Vec<Pattern>,
}

/// A catalog entry as a tile and its weight.
pub open spec fn entry_of(p: Pattern) -> (Seq<u32>, int) {
    (p.pixels@, p.weight as int)
}

/// The entries of a sequence of patterns.
pub open spec fn entries_of(ps: Seq<Pattern>) -> Seq<(Seq<u32>, int)> {
    ps.map_values(|p: Pattern| entry_of(p))
}

/// The sum of the weights of a sequence of entries.
pub open spec fn weight_sum(es: Seq<(Seq<u32>, int)>) -> int
    decreases es.len(),
{
    if es.len() == 0 {
        0
    } else {
        weight_sum(es.drop_last()) + es.last().1
    }
}

impl PatternData {
    /// The catalog's entries: each pattern's tile and weight.
    pub open spec fn entries(&self) -> Seq<(Seq<u32>, int)> {
        entries_of(self.patterns@)
    }

    /// Number of colors in one pattern.
    pub open spec fn pattern_size(&self) -> int {
        self.pattern_width as int * self.pattern_height as int
    }

    /// Total weight of the catalog.
    pub open spec fn total_weight(&self) -> int {
        weight_sum(self.entries())
    }

    /// A catalog as extraction leaves it: nonempty patterns of the stated
    /// size, each weighing at least one, no tile twice, and weights summing
    /// to the exemplar's area.
    pub open spec fn wf(&self) -> bool {
        &&& self.pattern_width >= 1
        &&& self.pattern_height >= 1
        &&& self.patterns@.len() >= 1
        &&& forall|i: int|
            0 <= i < self.patterns@.len() ==> {
                &&& (#[trigger] self.patterns@[i]).pixels@.len() == self.pattern_size()
                &&& self.patterns@[i].weight >= 1
            }
        &&& forall|i: int, j: int|
            0 <= i < j < self.patterns@.len() ==> #[trigger] self.patterns@[i].pixels@
                != #[trigger] self.patterns@[j].pixels@
        &&& self.total_weight() == self.image_width as int * self.image_height as int
    }

    /// Index of the color at (`x`, `y`) of pattern `pattern_index` when the
    /// patterns' colors are laid out one after another.
    pub fn get_pixel_index(&self, pattern_index: usize, x: u32, y: u32) -> (r: usize)
        requires
            self.pattern_width >= 1,
            pattern_index * self.pattern_size() + y as int * self.pattern_width as int + x
                <= usize::MAX,
        ensures
            r == pattern_index * self.pattern_size() + y as int * self.pattern_width as int + x,
    {
        let w = self.pattern_width as u64;
        let h = self.pattern_height as u64;
        assert(w * h <= u32::MAX as int * u32::MAX as int) by (nonlinear_arith)
            requires
                w <= u32::MAX,
                h <= u32::MAX,
        ;
        let s = (w * h) as u128;
        let p = pattern_index as u128;
        assert(p * s <= u64::MAX as int * u64::MAX as int) by (nonlinear_arith)
            requires
                p <= u64::MAX,
                s <= u64::MAX,
        ;
        let r = p * s + (y as u128) * (w as u128) + (x as u128);
        r as usize
    }

    /// Index of the relation between the color at (`x`, `y`) of pattern
    /// `pattern_index` and the position (`u`, `v`) of another pattern, when
    /// the relations are laid out pattern by pattern, then by (`x`, `y`), then
    /// by (`u`, `v`), each pair row-major.
    pub fn get_relationship_index(&self, pattern_index: usize, x: u32, y: u32, u: u32, v: u32) -> (r:
        usize)
        requires
            self.pattern_width >= 1,
            self.pattern_height >= 1,
            relationship_index(
                pattern_index as int,
                x as int,
                y as int,
                u as int,
                v as int,
                self.pattern_width as int,
                self.pattern_height as int,
            ) <= usize::MAX,
        ensures
            r == relationship_index(
                pattern_index as int,
                x as int,
                y as int,
                u as int,
                v as int,
                self.pattern_width as int,
                self.pattern_height as int,
            ),
    {
        let w = self.pattern_width as usize;
        let h = self.pattern_height as usize;
        let p = pattern_index;
        let (x, y, u, v) = (x as usize, y as usize, u as usize, v as usize);
        let ghost total = relationship_index(p as int, x as int, y as int, u as int, v as int, w as int, h as int);
        assert(p * h + y <= total && (p * h + y) * w + x <= total && ((p * h + y) * w + x) * h + v
            <= total && (((p * h + y) * w + x) * h + v) * w + u == total) by (nonlinear_arith)
            requires
                w >= 1,
                h >= 1,
                total == p * (w * h * w * h) + y * (w * h * w) + x * (w * h) + v * w + u,
        ;
        let a = p * h + y;
        let b = a * w + x;
        let c = b * h + v;
        c * w + u
    }
}

/// The flat index that `get_relationship_index` computes, with strides
/// `w`, `w * h`, `w * h * w` and `w * h * w * h`.
pub open spec fn relationship_index(p: int, x: int, y: int, u: int, v: int, w: int, h: int) -> int {
    p * (w * h * w * h) + y * (w * h * w) + x * (w * h) + v * w + u
}

/// With every weight at least one, the weights sum to at least the number
/// of entries.
pub proof fn lemma_weight_sum_at_least_len(es: Seq<(Seq<u32>, int)>)
    requires
        forall|i: int| 0 <= i < es.len() ==> #[trigger] es[i].1 >= 1,
    ensures
        weight_sum(es) >= es.len(),
    decreases es.len(),
{
    if es.len() > 0 {
        assert forall|i: int| 0 <= i < es.drop_last().len() implies #[trigger] es.drop_last()[i].1 >= 1 by {
            assert(es.drop_last()[i] == es[i]);
        }
        lemma_weight_sum_at_least_len(es.drop_last());
        assert(es[es.len() - 1].1 >= 1);
    }
}

} // verus!