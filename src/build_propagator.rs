use vstd::prelude::*;

use crate::pattern_data::PatternData;
use vstd::arithmetic::div_mod::lemma_fundamental_div_mod_converse;

verus! {

/// Whether the colors at (`x`, `y`) of tile `a` and at (`x - dx`, `y - dy`) of
/// tile `b` agree, when both positions lie inside a `w` x `h` tile.
pub open spec fn agree_at(a: Seq<u32>, b: Seq<u32>, w: int, h: int, dx: int, dy: int, x: int, y: int) -> bool {
    (0 <= x < w && 0 <= y < h && 0 <= x - dx < w && 0 <= y - dy < h) ==> a[y * w + x] == b[(y
        - dy) * w + (x - dx)]
}

/// Whether tile `b`, placed at offset (`dx`, `dy`) from the origin of tile `a`,
/// agrees with `a` on every position where the two overlap. Offsets with no
/// overlap impose no constraint.
pub open spec fn overlap_matches(a: Seq<u32>, b: Seq<u32>, w: int, h: int, dx: int, dy: int) -> bool {
    forall|x: int, y: int| #[trigger] agree_at(a, b, w, h, dx, dy, x, y)
}

/// One color of one pattern, with where it sits in its pattern and the
/// pattern's weight.
#[derive(Clone, Copy, Debug, PartialEq, Eq, Structural)]
pub struct PatternPixel {
    pub color: u32,
    pub weight: u64,
    pub x: u32,
    pub y: u32,
}

/// The catalog together with which pattern may be placed at which offset
/// from which other.
pub struct PatternPropagator {
    pub pattern_data: PatternData,
    /// The colors of every pattern, pattern after pattern, each row-major.
    pub pattern_pixels: Vec<PatternPixel>,
    /// For each ordered pair of patterns and each offset with some overlap,
    /// whether the overlap agrees; see `table_entry`.
    pub compatibility: Vec<bool>,
    /// The sum of the catalog's weights.
    pub total_weight: u64,
}

/// Number of offsets (`dx`, `dy`) with `|dx| < w` and `|dy| < h`.
pub open spec fn offset_count(w: int, h: int) -> int {
    (2 * w - 1) * (2 * h - 1)
}

/// Whether pattern `b` may be placed at offset (`dx`, `dy`) from the origin of
/// pattern `a`: their colors agree wherever they overlap.
pub open spec fn compatible_spec(pd: PatternData, a: int, b: int, dx: int, dy: int) -> bool {
    overlap_matches(
        pd.patterns@[a].pixels@,
        pd.patterns@[b].pixels@,
        pd.pattern_width as int,
        pd.pattern_height as int,
        dx,
        dy,
    )
}

/// Number of entries of the compatibility table of a catalog.
pub open spec fn table_len(pd: PatternData) -> int {
    pd.patterns@.len() * pd.patterns@.len() * offset_count(
        pd.pattern_width as int,
        pd.pattern_height as int,
    )
}

/// What entry `k` of the compatibility table holds: the table runs over the
/// ordered pairs (`a`, `b`) of patterns, `b` fastest, and within each pair over
/// the offsets row by row, `dy` from `1 - h`, `dx` fastest from `1 - w`.
pub open spec fn table_entry(pd: PatternData, k: int) -> bool {
    let w = pd.pattern_width as int;
    let h = pd.pattern_height as int;
    let n = pd.patterns@.len() as int;
    let pair = k / offset_count(w, h);
    let o = k % offset_count(w, h);
    compatible_spec(pd, pair / n, pair % n, o % (2 * w - 1) - (w - 1), o / (2 * w - 1) - (h - 1))
}

/// Whether `x`, a position in `[0, width)`, also lies in the interval of the
/// same width that starts at `other_interval_start`.
pub open spec fn inside_interval(x: int, other_interval_start: int, width: int) -> bool {
    &&& other_interval_start < 0 ==> x < other_interval_start + width
    &&& other_interval_start > 0 ==> x >= other_interval_start
}

/// Whether the relation at `relationship_index` (laid out as
/// `get_relationship_index` does) holds for the color at `pixel_index` (laid
/// out as `get_pixel_index` does): with pattern `p` at the origin and pattern
/// `q` placed so that its position (`x2`, `y2`) lies on (`u`, `v`), the color
/// (`x1`, `y1`) of `p` is inside the overlap and the two patterns agree there.
pub open spec fn relationship_holds(pd: PatternData, pixel_index: int, relationship_index: int) -> bool {
    let w = pd.pattern_width as int;
    let h = pd.pattern_height as int;
    let sz = w * h;
    let p = pixel_index / sz;
    let x1 = pixel_index % sz % w;
    let y1 = pixel_index % sz / w;
    let q = relationship_index / (sz * sz);
    let r1 = relationship_index % (sz * sz);
    let y2 = r1 / (sz * w);
    let r2 = r1 % (sz * w);
    let x2 = r2 / sz;
    let v = r2 % sz / w;
    let u = r2 % sz % w;
    inside_interval(x1, u - x2, w) && inside_interval(y1, v - y2, h) && compatible_spec(
        pd,
        p,
        q,
        u - x2,
        v - y2,
    )
}

/// Whether `x` lies in the part of `[0, width)` that the interval of the same
/// width starting at `other_interval_start` covers; e.g. 1 lies in the three
/// positions that `[0, 5)` and `[-2, 3)` share.
pub fn is_inside_interval_intersection(x: u32, other_interval_start: i64, width: u32) -> (r: bool)
    ensures
        r == inside_interval(x as int, other_interval_start as int, width as int),
{
    if other_interval_start < 0 {
        return (x as i64) < other_interval_start + width as i64;
    } else if other_interval_start > 0 {
        return (x as i64) >= other_interval_start;
    }
    true
}

impl PatternPropagator {
    /// A well-formed catalog with its full compatibility table and total weight.
    pub open spec fn wf(&self) -> bool {
        &&& self.pattern_data.wf()
        &&& self.compatibility@.len() == table_len(self.pattern_data)
        &&& forall|k: int|
            0 <= k < self.compatibility@.len() ==> #[trigger] self.compatibility@[k] == table_entry(
                self.pattern_data,
                k,
            )
        &&& self.total_weight == self.pattern_data.total_weight()
    }

    /// Number of patterns.
    pub open spec fn count(&self) -> int {
        self.pattern_data.patterns@.len() as int
    }

    /// Whether pattern `b` may sit at offset (`dx`, `dy`) from pattern `a`.
    pub open spec fn allows(&self, a: int, b: int, dx: int, dy: int) -> bool {
        compatible_spec(self.pattern_data, a, b, dx, dy)
    }

    /// Whether the relation at `relationship_index` holds for the color at
    /// `pixel_index`; see `relationship_holds`. Derived from the compatibility
    /// table on each call.
    pub fn pixel_relationship(&self, pixel_index: usize, relationship_index: usize) -> (r: bool)
        requires
            self.wf(),
            pixel_index < self.count() * self.pattern_data.pattern_size(),
            relationship_index < self.count() * (self.pattern_data.pattern_size()
                * self.pattern_data.pattern_size()),
            self.count() * (self.pattern_data.pattern_size() * self.pattern_data.pattern_size())
                <= usize::MAX,
        ensures
            r == relationship_holds(self.pattern_data, pixel_index as int, relationship_index as int),
    {
        let ghost n = self.count();
        let w = self.pattern_data.pattern_width as usize;
        let h = self.pattern_data.pattern_height as usize;
        let ghost gsz = w * h;
        assert(1 <= gsz <= gsz * gsz <= n * (gsz * gsz) && w <= gsz && 1 <= gsz * w <= gsz * gsz)
            by (nonlinear_arith)
            requires
                gsz == w * h,
                w >= 1,
                h >= 1,
                n >= 1,
        ;
        let sz = w * h;
        let s4 = sz * sz;
        let s3 = sz * w;
        let p = pixel_index / sz;
        let x1 = pixel_index % sz % w;
        let y1 = pixel_index % sz / w;
        let q = relationship_index / s4;
        let r1 = relationship_index % s4;
        let y2 = r1 / s3;
        let r2 = r1 % s3;
        let x2 = r2 / sz;
        let v = r2 % sz / w;
        let u = r2 % sz % w;
        assert(p < n && q < n && x1 < w && y1 < h && u < w && v < h && x2 < w && y2 < h) by (nonlinear_arith)
            requires
                p == pixel_index as int / sz as int,
                pixel_index < n * sz,
                q == relationship_index as int / s4 as int,
                relationship_index < n * s4,
                x1 == pixel_index as int % sz as int % w as int,
                y1 == pixel_index as int % sz as int / w as int,
                r1 == relationship_index as int % s4 as int,
                y2 == r1 as int / s3 as int,
                r2 == r1 as int % s3 as int,
                x2 == r2 as int / sz as int,
                v == r2 as int % sz as int / w as int,
                u == r2 as int % sz as int % w as int,
                sz == w * h,
                s4 == sz * sz,
                s3 == sz * w,
                w >= 1,
                h >= 1,
        ;
        let tx = u as i64 - x2 as i64;
        let ty = v as i64 - y2 as i64;
        if !is_inside_interval_intersection(x1 as u32, tx, w as u32) || !is_inside_interval_intersection(
            y1 as u32,
            ty,
            h as u32,
        ) {
            return false;
        }
        self.compatible(p, q, tx, ty)
    }

    /// Whether pattern `b` may be placed at offset (`dx`, `dy`) from the
    /// origin of pattern `a`. Offsets without overlap impose no constraint.
    pub fn compatible(&self, a: usize, b: usize, dx: i64, dy: i64) -> (r: bool)
        requires
            self.wf(),
            a < self.count(),
            b < self.count(),
        ensures
            r == self.allows(a as int, b as int, dx as int, dy as int),
    {
        let ghost pd = self.pattern_data;
        let w = self.pattern_data.pattern_width as i64;
        let h = self.pattern_data.pattern_height as i64;
        if dx <= -w || dx >= w || dy <= -h || dy >= h {
            assert forall|x: int, y: int| #[trigger]
                agree_at(
                    pd.patterns@[a as int].pixels@,
                    pd.patterns@[b as int].pixels@,
                    w as int,
                    h as int,
                    dx as int,
                    dy as int,
                    x,
                    y,
                ) by {}
            return true;
        }
        let n = self.pattern_data.patterns.len();
        let total = self.compatibility.len();
        assert((2 * w - 1) <= offset_count(w as int, h as int) <= total && (2 * h - 1)
            <= offset_count(w as int, h as int) && n * n <= total) by (nonlinear_arith)
            requires
                w >= 1,
                h >= 1,
                n >= 1,
                total == n * n * offset_count(w as int, h as int),
        ;
        let row = (2 * w - 1) as usize;
        let ox = (dx + w - 1) as usize;
        let oy = (dy + h - 1) as usize;
        let ghost s = offset_count(w as int, h as int);
        proof {
            assert(0 <= oy * row + ox < s && a * n + b < n * n) by (nonlinear_arith)
                requires
                    ox < row,
                    oy < 2 * h - 1,
                    s == row * (2 * h - 1),
                    a < n,
                    b < n,
            ;
            assert((a * n + b) * s + oy * row + ox < n * n * s) by (nonlinear_arith)
                requires
                    0 <= oy * row + ox < s,
                    a * n + b < n * n,
            ;
            lemma_fundamental_div_mod_converse(
                (a * n + b) * s + oy * row + ox,
                s,
                a * n + b,
                oy * row + ox,
            );
            lemma_fundamental_div_mod_converse(a * n + b, n as int, a as int, b as int);
            lemma_fundamental_div_mod_converse(oy * row + ox, row as int, oy as int, ox as int);
        }
        let col = (2 * h - 1) as usize;
        let span = row * col;
        let pair = a * n + b;
        let k = pair * span + (oy * row + ox);
        self.compatibility[k]
    }
}

/// Compares the overlap of two `pattern_width` x `pattern_height` tiles when
/// `that_colors` is placed at (`that_pattern_x`, `that_pattern_y`) relative to
/// `this_colors`.
pub fn is_intersection_match(
    this_colors: &Vec<u32>,
    that_colors: &Vec<u32>,
    that_pattern_x: i64,
    that_pattern_y: i64,
    pattern_width: u32,
    pattern_height: u32,
) -> (r: bool)
    requires
        this_colors@.len() == pattern_width as int * pattern_height as int,
        that_colors@.len() == pattern_width as int * pattern_height as int,
    ensures
        r == overlap_matches(
            this_colors@,
            that_colors@,
            pattern_width as int,
            pattern_height as int,
            that_pattern_x as int,
            that_pattern_y as int,
        ),
{
    let ghost a = this_colors@;
    let ghost b = that_colors@;
    let ghost (wi, hi, dx, dy) = (
        pattern_width as int,
        pattern_height as int,
        that_pattern_x as int,
        that_pattern_y as int,
    );
    let w = pattern_width as i64;
    let h = pattern_height as i64;
    let x = that_pattern_x as i64;
    let y = that_pattern_y as i64;
    if x <= -w || x >= w || y <= -h || y >= h {
        assert forall|px: int, py: int| #[trigger] agree_at(a, b, wi, hi, dx, dy, px, py) by {}
        return true;
    }
    let overlap_width = (if x <= 0 { w + x } else { w - x }) as usize;
    let overlap_height = (if y <= 0 { h + y } else { h - y }) as usize;
    let this_left = (if x <= 0 { 0 } else { x }) as usize;
    let this_top = (if y <= 0 { 0 } else { y }) as usize;
    let that_left = (if x <= 0 { -x } else { 0 }) as usize;
    let that_top = (if y <= 0 { -y } else { 0 }) as usize;
    let wu = pattern_width as usize;
    assert(this_colors@.len() == this_colors.len());
    let mut v: usize = 0;
    while v < overlap_height
        invariant
            a == this_colors@,
            b == that_colors@,
            wi == wu,
            hi == pattern_height,
            wi == pattern_width,
            dx == that_pattern_x,
            dy == that_pattern_y,
            a.len() == wi * hi,
            b.len() == wi * hi,
            a.len() <= usize::MAX,
            this_left - that_left == dx,
            this_top - that_top == dy,
            this_left + overlap_width <= wi,
            that_left + overlap_width <= wi,
            this_top + overlap_height <= hi,
            that_top + overlap_height <= hi,
            this_left == (if dx <= 0 { 0 } else { dx }),
            this_top == (if dy <= 0 { 0 } else { dy }),
            overlap_width == (if dx <= 0 { wi + dx } else { wi - dx }),
            overlap_height == (if dy <= 0 { hi + dy } else { hi - dy }),
            v <= overlap_height,
            forall|px: int, py: int|
                this_top <= py < this_top + v ==> #[trigger] agree_at(a, b, wi, hi, dx, dy, px, py),
        decreases overlap_height - v,
    {
        let mut u: usize = 0;
        while u < overlap_width
            invariant
                a == this_colors@,
                b == that_colors@,
                wi == wu,
                hi == pattern_height,
                wi == pattern_width,
                dx == that_pattern_x,
                dy == that_pattern_y,
                a.len() == wi * hi,
                b.len() == wi * hi,
                a.len() <= usize::MAX,
                this_left - that_left == dx,
                this_top - that_top == dy,
                this_left + overlap_width <= wi,
                that_left + overlap_width <= wi,
                this_top + overlap_height <= hi,
                that_top + overlap_height <= hi,
                this_left == (if dx <= 0 { 0 } else { dx }),
                this_top == (if dy <= 0 { 0 } else { dy }),
                overlap_width == (if dx <= 0 { wi + dx } else { wi - dx }),
                overlap_height == (if dy <= 0 { hi + dy } else { hi - dy }),
                v < overlap_height,
                u <= overlap_width,
                forall|px: int, py: int|
                    this_top <= py < this_top + v ==> #[trigger] agree_at(a, b, wi, hi, dx, dy, px, py),
                forall|px: int|
                    px < this_left + u ==> #[trigger] agree_at(a, b, wi, hi, dx, dy, px, this_top + v),
            decreases overlap_width - u,
        {
            let this_u = this_left + u;
            let this_v = this_top + v;
            let that_u = that_left + u;
            let that_v = that_top + v;
            assert(this_v * wi + this_u < wi * hi && that_v * wi + that_u < wi * hi)
                by (nonlinear_arith)
                requires
                    this_u < wi,
                    this_v < hi,
                    that_u < wi,
                    that_v < hi,
            ;
            let this_index = this_v * wu + this_u;
            let that_index = that_v * wu + that_u;
            if this_colors[this_index] != that_colors[that_index] {
                assert(!agree_at(a, b, wi, hi, dx, dy, this_u as int, this_v as int));
                assert(!overlap_matches(a, b, wi, hi, dx, dy));
                return false;
            }
            assert(agree_at(a, b, wi, hi, dx, dy, this_u as int, this_v as int));
            u += 1;
        }
        assert forall|px: int, py: int|
            this_top <= py < this_top + v + 1 implies #[trigger] agree_at(a, b, wi, hi, dx, dy, px, py) by {
            if py == this_top + v && px >= this_left + overlap_width {
            }
        }
        v += 1;
    }
    assert forall|px: int, py: int| #[trigger] agree_at(a, b, wi, hi, dx, dy, px, py) by {
        if this_top <= py < this_top + overlap_height {
        }
    }
    true
}

/// Whether the compatibility table of a catalog has a length that fits in memory.
pub open spec fn table_fits(pd: PatternData) -> bool {
    table_len(pd) <= usize::MAX
}

/// Fills the compatibility table: for each ordered pair of patterns and each
/// offset with overlap, whether the two agree on the overlap.
fn calculate_propagator_relationships(pattern_data: &PatternData) -> (table: Vec<bool>)
    requires
        pattern_data.wf(),
        table_fits(*pattern_data),
    ensures
        table@.len() == table_len(*pattern_data),
        forall|k: int|
            0 <= k < table@.len() ==> #[trigger] table@[k] == table_entry(*pattern_data, k),
{
    let ghost pd = *pattern_data;
    let patterns = &pattern_data.patterns;
    let w = pattern_data.pattern_width;
    let h = pattern_data.pattern_height;
    let n = patterns.len();
    let ghost s = offset_count(w as int, h as int);
    assert((2 * w - 1) <= s && (2 * h - 1) <= s && s <= n * n * s && n * n <= n * n * s)
        by (nonlinear_arith)
        requires
            w >= 1,
            h >= 1,
            n >= 1,
            s == (2 * w - 1) * (2 * h - 1),
    ;
    let row = (2 * w as u64 - 1) as usize;
    let col = (2 * h as u64 - 1) as usize;
    let span = row * col;
    let pairs = n * n;
    let mut table: Vec<bool> = Vec::new();
    let mut pair: usize = 0;
    while pair < pairs
        invariant
            pd == *pattern_data,
            pd.wf(),
            patterns == &pattern_data.patterns,
            w == pd.pattern_width,
            h == pd.pattern_height,
            n == pd.patterns@.len(),
            pairs == n * n,
            span == s,
            s == offset_count(w as int, h as int),
            row == 2 * w - 1,
            pairs * span <= usize::MAX,
            pair <= pairs,
            table@.len() == pair * span,
            forall|k: int| 0 <= k < table@.len() ==> #[trigger] table@[k] == table_entry(pd, k),
        decreases pairs - pair,
    {
        let a = pair / n;
        let b = pair % n;
        assert(a < n) by (nonlinear_arith)
            requires
                a == pair as int / n as int,
                pair < n * n,
                n >= 1,
        ;
        let mut o: usize = 0;
        while o < span
            invariant
                pd == *pattern_data,
                pd.wf(),
                patterns == &pattern_data.patterns,
                w == pd.pattern_width,
                h == pd.pattern_height,
                n == pd.patterns@.len(),
                pairs == n * n,
                span == s,
                s == offset_count(w as int, h as int),
                row == 2 * w - 1,
                pairs * span <= usize::MAX,
                pair < pairs,
                a == pair as int / n as int,
                b == pair as int % n as int,
                a < n,
                b < n,
                o <= span,
                table@.len() == pair * span + o,
                forall|k: int| 0 <= k < table@.len() ==> #[trigger] table@[k] == table_entry(pd, k),
            decreases span - o,
        {
            assert((o as int) / (row as int) < 2 * h - 1) by (nonlinear_arith)
                requires
                    o < span,
                    span == row * (2 * h - 1),
                    row >= 1,
            ;
            let dx = (o % row) as i64 - (w as i64 - 1);
            let dy = (o / row) as i64 - (h as i64 - 1);
            let m = is_intersection_match(&patterns[a].pixels, &patterns[b].pixels, dx, dy, w, h);
            proof {
                let k = pair * span + o;
                assert(k < pairs * span) by (nonlinear_arith)
                    requires
                        k == pair * span + o,
                        o < span,
                        pair < pairs,
                ;
                lemma_fundamental_div_mod_converse(k, s, pair as int, o as int);
                assert(m == table_entry(pd, k));
            }
            table.push(m);
            o += 1;
        }
        assert(table@.len() == (pair + 1) * span) by (nonlinear_arith)
            requires
                table@.len() == pair * span + span,
        ;
        pair += 1;
    }
    assert(table@.len() == table_len(pd)) by (nonlinear_arith)
        requires
            table@.len() == pairs * span,
            pairs == n * n,
            span == s,
            table_len(pd) == n * n * s,
    ;
    table
}

/// Lists every color of every pattern, pattern after pattern, each
/// row-major, with its position in the pattern and the pattern's weight.
fn initialize_pixels(pattern_data: &PatternData) -> (pixels: Vec<PatternPixel>)
    requires
        pattern_data.wf(),
        table_fits(*pattern_data),
    ensures
        pixels@.len() == pattern_data.patterns@.len() * pattern_data.pattern_size(),
        forall|k: int|
            0 <= k < pixels@.len() ==> #[trigger] pixels@[k] == pixel_at(*pattern_data, k),
{
    let ghost pd = *pattern_data;
    let w = pattern_data.pattern_width;
    let h = pattern_data.pattern_height;
    let n = pattern_data.patterns.len();
    let ghost sz = pd.pattern_size();
    assert(sz <= n * sz <= table_len(pd)) by (nonlinear_arith)
        requires
            w >= 1,
            h >= 1,
            n >= 1,
            sz == w * h,
            table_len(pd) == n * n * offset_count(w as int, h as int),
            offset_count(w as int, h as int) == (2 * w - 1) * (2 * h - 1),
    ;
    let size = w as usize * h as usize;
    let total = n * size;
    let mut pixels: Vec<PatternPixel> = Vec::with_capacity(total);
    let mut k: usize = 0;
    while k < total
        invariant
            pd == *pattern_data,
            pd.wf(),
            w == pd.pattern_width,
            h == pd.pattern_height,
            n == pd.patterns@.len(),
            size == sz,
            sz == pd.pattern_size(),
            total == n * size,
            k <= total,
            pixels@.len() == k,
            forall|j: int| 0 <= j < k ==> #[trigger] pixels@[j] == pixel_at(pd, j),
        decreases total - k,
    {
        let p = k / size;
        let j = k % size;
        assert(p < n) by (nonlinear_arith)
            requires
                p == k as int / size as int,
                k < n * size,
                size >= 1,
        ;
        assert((j as int) / (w as int) < h) by (nonlinear_arith)
            requires
                j < size,
                size == w * h,
                w >= 1,
        ;
        let pattern = &pattern_data.patterns[p];
        pixels.push(
            PatternPixel {
                color: pattern.pixels[j],
                weight: pattern.weight,
                x: (j % w as usize) as u32,
                y: (j / w as usize) as u32,
            },
        );
        k += 1;
    }
    pixels
}

/// Pixel `k` of the catalog's pixel list.
pub open spec fn pixel_at(pd: PatternData, k: int) -> PatternPixel {
    let sz = pd.pattern_size();
    let p = pd.patterns@[k / sz];
    let j = k % sz;
    PatternPixel {
        color: p.pixels@[j],
        weight: p.weight,
        x: (j % pd.pattern_width as int) as u32,
        y: (j / pd.pattern_width as int) as u32,
    }
}

/// Builds the propagator of a catalog: its pixel list, its compatibility
/// table and its total weight.
pub fn build_propagator(pattern_data: PatternData) -> (r: PatternPropagator)
    requires
        pattern_data.wf(),
        table_fits(pattern_data),
    ensures
        r.wf(),
        r.pattern_data == pattern_data,
        r.pattern_pixels@.len() == pattern_data.patterns@.len() * pattern_data.pattern_size(),
        forall|k: int|
            0 <= k < r.pattern_pixels@.len() ==> #[trigger] r.pattern_pixels@[k] == pixel_at(
                pattern_data,
                k,
            ),
{
    let pattern_pixels = initialize_pixels(&pattern_data);
    let compatibility = calculate_propagator_relationships(&pattern_data);
    assert(pattern_data.image_width as int * pattern_data.image_height as int <= u64::MAX)
        by (nonlinear_arith)
        requires
            pattern_data.image_width <= u32::MAX,
            pattern_data.image_height <= u32::MAX,
    ;
    let total_weight = pattern_data.image_width as u64 * pattern_data.image_height as u64;
    PatternPropagator { pattern_data, pattern_pixels, compatibility, total_weight }
}

} // verus!
