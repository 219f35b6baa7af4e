use vstd::prelude::*;

use crate::error::SynthesisError;
use crate::image::Image;
use crate::pattern_data::{entries_of, entry_of, weight_sum, Pattern, PatternData};

verus! {

/// The color at (`x`, `y`) of a row-major `w` x `h` grid that wraps at its edges.
pub open spec fn wrapped_color(data: Seq<u32>, w: int, h: int, x: int, y: int) -> u32 {
    data[(y % h) * w + x % w]
}

/// The `pw` x `ph` tile, row-major, whose top-left corner is at (`x`, `y`).
pub open spec fn tile_at(data: Seq<u32>, w: int, h: int, pw: int, ph: int, x: int, y: int) -> Seq<
    u32,
> {
    Seq::new((pw * ph) as nat, |k: int| wrapped_color(data, w, h, x + k % pw, y + k / pw))
}

/// The tiles at every exemplar position, in row-major order of their corners.
pub open spec fn tiles_of(image: Image, pw: int, ph: int) -> Seq<Seq<u32>> {
    let w = image.width as int;
    let h = image.height as int;
    Seq::new((w * h) as nat, |k: int| tile_at(image.data@, w, h, pw, ph, k % w, k / w))
}

/// Whether a pattern size can be cut from the exemplar.
pub open spec fn valid_pattern_size(image: Image, pw: int, ph: int) -> bool {
    1 <= pw <= image.width && 1 <= ph <= image.height
}

/// Where tile `t` first occurs among the entries; their length if nowhere.
pub open spec fn position_of(es: Seq<(Seq<u32>, int)>, t: Seq<u32>) -> int
    decreases es.len(),
{
    if es.len() == 0 {
        0
    } else if es[0].0 == t {
        0
    } else {
        1 + position_of(es.drop_first(), t)
    }
}

/// Counts one more occurrence of tile `t`: its entry's weight grows by one,
/// or it is appended with weight one.
pub open spec fn add_tile(es: Seq<(Seq<u32>, int)>, t: Seq<u32>) -> Seq<(Seq<u32>, int)> {
    let i = position_of(es, t);
    if i < es.len() {
        es.update(i, (t, es[i].1 + 1))
    } else {
        es.push((t, 1))
    }
}

/// The distinct tiles of `ts` in order of first occurrence, each with the
/// number of times it occurs.
pub open spec fn catalog_of(ts: Seq<Seq<u32>>) -> Seq<(Seq<u32>, int)>
    decreases ts.len(),
{
    if ts.len() == 0 {
        seq![]
    } else {
        add_tile(catalog_of(ts.drop_last()), ts.last())
    }
}

proof fn lemma_position_of(es: Seq<(Seq<u32>, int)>, t: Seq<u32>)
    ensures
        0 <= position_of(es, t) <= es.len(),
        position_of(es, t) < es.len() ==> es[position_of(es, t)].0 == t,
        forall|j: int| 0 <= j < position_of(es, t) ==> es[j].0 != t,
    decreases es.len(),
{
    if es.len() > 0 && es[0].0 != t {
        lemma_position_of(es.drop_first(), t);
        assert forall|j: int| 0 <= j < position_of(es, t) implies es[j].0 != t by {
            if j > 0 {
                assert(es[j] == es.drop_first()[j - 1]);
            }
        }
    }
}

proof fn lemma_weight_sum_update(es: Seq<(Seq<u32>, int)>, i: int, e: (Seq<u32>, int))
    requires
        0 <= i < es.len(),
    ensures
        weight_sum(es.update(i, e)) == weight_sum(es) - es[i].1 + e.1,
    decreases es.len(),
{
    let u = es.update(i, e);
    if i == es.len() - 1 {
        assert(u.drop_last() =~= es.drop_last());
    } else {
        assert(u.drop_last() =~= es.drop_last().update(i, e));
        lemma_weight_sum_update(es.drop_last(), i, e);
    }
}

proof fn lemma_weight_sum_push(es: Seq<(Seq<u32>, int)>, e: (Seq<u32>, int))
    ensures
        weight_sum(es.push(e)) == weight_sum(es) + e.1,
{
    assert(es.push(e).drop_last() =~= es);
}

/// What `catalog_of` guarantees of its entries: weights between one and the
/// number of tiles, no tile twice, every tile one of the input's, and weights
/// summing to the number of tiles.
pub proof fn lemma_catalog_of(ts: Seq<Seq<u32>>)
    ensures
        forall|i: int|
            0 <= i < catalog_of(ts).len() ==> 1 <= #[trigger] catalog_of(ts)[i].1 <= ts.len(),
        forall|i: int, j: int|
            0 <= i < j < catalog_of(ts).len() ==> #[trigger] catalog_of(ts)[i].0
                != #[trigger] catalog_of(ts)[j].0,
        forall|i: int|
            0 <= i < catalog_of(ts).len() ==> exists|k: int|
                0 <= k < ts.len() && ts[k] == #[trigger] catalog_of(ts)[i].0,
        weight_sum(catalog_of(ts)) == ts.len(),
        ts.len() > 0 ==> catalog_of(ts).len() > 0,
    decreases ts.len(),
{
    if ts.len() > 0 {
        let prev_ts = ts.drop_last();
        lemma_catalog_of(prev_ts);
        let prev = catalog_of(prev_ts);
        let t = ts.last();
        lemma_position_of(prev, t);
        let i = position_of(prev, t);
        assert forall|m: int| 0 <= m < prev.len() implies exists|k: int|
            0 <= k < ts.len() && ts[k] == #[trigger] prev[m].0 by {
            let k = choose|k: int| 0 <= k < prev_ts.len() && prev_ts[k] == prev[m].0;
            assert(ts[k] == prev_ts[k]);
        }
        assert(ts[ts.len() - 1] == t);
        if i < prev.len() {
            lemma_weight_sum_update(prev, i, (t, prev[i].1 + 1));
        } else {
            lemma_weight_sum_push(prev, (t, 1));
        }
    }
}

/// How many times tile `t` occurs in `ts`.
pub open spec fn occurrences(ts: Seq<Seq<u32>>, t: Seq<u32>) -> int
    decreases ts.len(),
{
    if ts.len() == 0 {
        0
    } else {
        occurrences(ts.drop_last(), t) + if ts.last() == t {
            1int
        } else {
            0
        }
    }
}

proof fn lemma_occurrences_found(ts: Seq<Seq<u32>>, t: Seq<u32>)
    requires
        occurrences(ts, t) != 0,
    ensures
        exists|k: int| 0 <= k < ts.len() && ts[k] == t,
    decreases ts.len(),
{
    if ts.last() != t {
        lemma_occurrences_found(ts.drop_last(), t);
        let k = choose|k: int| 0 <= k < ts.drop_last().len() && ts.drop_last()[k] == t;
        assert(ts[k] == t);
    } else {
        assert(ts[ts.len() - 1] == t);
    }
}

/// The catalog counts tiles: each entry's weight is the number of times its
/// tile occurs, and every tile that occurs has an entry.
#[verifier::rlimit(30)]
pub proof fn lemma_catalog_counts(ts: Seq<Seq<u32>>)
    ensures
        forall|i: int|
            0 <= i < catalog_of(ts).len() ==> #[trigger] catalog_of(ts)[i].1 == occurrences(
                ts,
                catalog_of(ts)[i].0,
            ),
        forall|k: int|
            0 <= k < ts.len() ==> exists|i: int|
                0 <= i < catalog_of(ts).len() && catalog_of(ts)[i].0 == #[trigger] ts[k],
    decreases ts.len(),
{
    if ts.len() > 0 {
        let prev_ts = ts.drop_last();
        lemma_catalog_counts(prev_ts);
        lemma_catalog_of(prev_ts);
        let prev = catalog_of(prev_ts);
        let t = ts.last();
        lemma_position_of(prev, t);
        let pos = position_of(prev, t);
        let cat = catalog_of(ts);
        if pos == prev.len() && occurrences(prev_ts, t) != 0 {
            lemma_occurrences_found(prev_ts, t);
            let k = choose|k: int| 0 <= k < prev_ts.len() && prev_ts[k] == t;
            let i = choose|i: int| 0 <= i < prev.len() && prev[i].0 == #[trigger] prev_ts[k];
            assert(prev[i].0 == t);
            assert(false);
        }
        assert forall|i: int| 0 <= i < cat.len() implies #[trigger] cat[i].1 == occurrences(ts, cat[i].0) by {
            if i == pos {
                if pos < prev.len() {
                    assert(cat[i] == (t, prev[pos].1 + 1));
                    assert(prev[pos].1 == occurrences(prev_ts, prev[pos].0));
                } else {
                    assert(cat[i] == (t, 1int));
                }
                assert(occurrences(ts, t) == occurrences(prev_ts, t) + 1);
            } else {
                assert(i < prev.len());
                assert(cat[i] == prev[i]);
                if pos < prev.len() && i > pos {
                    assert(prev[pos].0 != prev[i].0);
                }
                assert(prev[i].0 != t);
                assert(occurrences(ts, prev[i].0) == occurrences(prev_ts, prev[i].0));
                assert(prev[i].1 == occurrences(prev_ts, prev[i].0));
            }
        }
        assert forall|k: int| 0 <= k < ts.len() implies exists|i: int|
            0 <= i < cat.len() && cat[i].0 == #[trigger] ts[k] by {
            if k < ts.len() - 1 {
                assert(ts[k] == prev_ts[k]);
                let i = choose|i: int| 0 <= i < prev.len() && prev[i].0 == #[trigger] prev_ts[k];
                assert(cat[i].0 == prev[i].0);
            } else {
                assert(cat[pos].0 == t);
            }
        }
    }
}

/// The weights of every catalog sum to the number of tiles it was built from;
/// for an exemplar, to its width times its height.
pub proof fn lemma_weights_sum_to_area(image: Image, pw: int, ph: int)
    requires
        image.wf(),
    ensures
        weight_sum(catalog_of(tiles_of(image, pw, ph))) == image.width as int
            * image.height as int,
{
    lemma_catalog_of(tiles_of(image, pw, ph));
}

/// Extraction depends on the exemplar's size and colors and the pattern size
/// alone: equal inputs give equal catalogs, tile for tile and weight for weight.
pub proof fn lemma_extraction_deterministic(a: Image, b: Image, pw: int, ph: int)
    requires
        a.width == b.width,
        a.height == b.height,
        a.data@ == b.data@,
    ensures
        catalog_of(tiles_of(a, pw, ph)) == catalog_of(tiles_of(b, pw, ph)),
{
    assert(tiles_of(a, pw, ph) =~= tiles_of(b, pw, ph));
}

fn same_colors(a: &Vec<u32>, b: &Vec<u32>) -> (r: bool)
    ensures
        r == (a@ == b@),
{
    if a.len() != b.len() {
        return false;
    }
    let mut i: usize = 0;
    while i < a.len()
        invariant
            a@.len() == b@.len(),
            i <= a@.len(),
            forall|j: int| 0 <= j < i ==> a@[j] == b@[j],
        decreases a@.len() - i,
    {
        if a[i] != b[i] {
            return false;
        }
        i += 1;
    }
    assert(a@ =~= b@);
    true
}

/// Copies the tile whose top-left corner is at (`x`, `y`), wrapping at the
/// exemplar's edges.
fn extract_tile(data: &Vec<u32>, w: u32, h: u32, pw: u32, ph: u32, x: u32, y: u32) -> (t: Vec<u32>)
    requires
        1 <= pw <= w,
        1 <= ph <= h,
        data@.len() == w as int * h as int,
        x < w,
        y < h,
    ensures
        t@ == tile_at(data@, w as int, h as int, pw as int, ph as int, x as int, y as int),
{
    assert(pw as int * ph as int <= w as int * h as int) by (nonlinear_arith)
        requires
            1 <= pw <= w,
            1 <= ph <= h,
    ;
    assert(data@.len() == data.len());
    let s: usize = pw as usize * ph as usize;
    let ghost spec_tile = tile_at(data@, w as int, h as int, pw as int, ph as int, x as int, y as int);
    let mut t: Vec<u32> = Vec::with_capacity(s);
    let mut k: usize = 0;
    while k < s
        invariant
            1 <= pw <= w,
            1 <= ph <= h,
            x < w,
            y < h,
            data@.len() == w as int * h as int,
            data@.len() <= usize::MAX,
            s == pw as int * ph as int,
            spec_tile == tile_at(data@, w as int, h as int, pw as int, ph as int, x as int, y as int),
            k <= s,
            t@.len() == k,
            forall|j: int| 0 <= j < k ==> t@[j] == spec_tile[j],
        decreases s - k,
    {
        let px = (k % pw as usize) as u64;
        assert((k as int) / (pw as int) < ph) by (nonlinear_arith)
            requires
                k < pw as int * ph as int,
                pw >= 1,
        ;
        let py = (k / pw as usize) as u64;
        let sx = (x as u64 + px) % w as u64;
        let sy = (y as u64 + py) % h as u64;
        assert(sy * w + sx < w as int * h as int) by (nonlinear_arith)
            requires
                sx < w,
                sy < h,
        ;
        let idx = (sy * w as u64 + sx) as usize;
        t.push(data[idx]);
        k += 1;
    }
    assert(t@ =~= spec_tile);
    t
}

/// Cuts a `pattern_width` x `pattern_height` tile at every position of the
/// exemplar, wrapping at its edges, and collects the distinct tiles in order of
/// first occurrence, each weighted by the number of positions that produce it.
pub fn extract_patterns(image: Image, pattern_width: u32, pattern_height: u32) -> (r: Result<
    PatternData,
    SynthesisError,
>)
    requires
        image.wf(),
    ensures
        match r {
            Ok(d) => {
                &&& valid_pattern_size(image, pattern_width as int, pattern_height as int)
                &&& d.entries() == catalog_of(
                    tiles_of(image, pattern_width as int, pattern_height as int),
                )
                &&& d.pattern_width == pattern_width
                &&& d.pattern_height == pattern_height
                &&& d.image_width == image.width
                &&& d.image_height == image.height
                &&& d.wf()
            },
            Err(e) => {
                &&& !valid_pattern_size(image, pattern_width as int, pattern_height as int)
                &&& e == SynthesisError::InvalidConfiguration
            },
        },
{
    if pattern_width == 0 || pattern_height == 0 || pattern_width > image.width || pattern_height
        > image.height {
        return Err(SynthesisError::InvalidConfiguration);
    }
    let ghost tiles = tiles_of(image, pattern_width as int, pattern_height as int);
    let Image { width, height, data } = image;
    let n = data.len();
    let mut patterns: Vec<Pattern> = Vec::new();
    let mut k: usize = 0;
    while k < n
        invariant
            1 <= pattern_width <= width,
            1 <= pattern_height <= height,
            n == data@.len(),
            data@.len() == width as int * height as int,
            tiles == tiles_of(image, pattern_width as int, pattern_height as int),
            image.data@ == data@,
            image.width == width,
            image.height == height,
            k <= n,
            entries_of(patterns@) == catalog_of(tiles.take(k as int)),
            forall|i: int|
                0 <= i < patterns@.len() ==> (#[trigger] patterns@[i]).pixels@.len()
                    == pattern_width as int * pattern_height as int,
        decreases n - k,
    {
        let x = (k % width as usize) as u32;
        let row = k / width as usize;
        assert(row < height) by (nonlinear_arith)
            requires
                row == k as int / width as int,
                k < width as int * height as int,
                width >= 1,
        ;
        let y = row as u32;
        let pixels = extract_tile(&data, width, height, pattern_width, pattern_height, x, y);
        let ghost prefix = tiles.take(k as int);
        let ghost prev = catalog_of(prefix);
        assert(tiles.take(k + 1).drop_last() =~= prefix);
        assert(pixels@ == tiles[k as int]);
        proof {
            lemma_position_of(prev, pixels@);
            lemma_catalog_of(prefix);
        }
        let mut i: usize = 0;
        let mut found = false;
        while i < patterns.len()
            invariant
                entries_of(patterns@) == prev,
                i <= patterns@.len(),
                forall|j: int| 0 <= j < i ==> (#[trigger] patterns@[j]).pixels@ != pixels@,
                found ==> i < patterns@.len() && patterns@[i as int].pixels@ == pixels@,
            ensures
                !found ==> i == patterns@.len(),
                found ==> i < patterns@.len() && patterns@[i as int].pixels@ == pixels@,
                forall|j: int| 0 <= j < i ==> (#[trigger] patterns@[j]).pixels@ != pixels@,
            decreases patterns@.len() - i + (if found { 0int } else { 1 }),
        {
            if same_colors(&patterns[i].pixels, &pixels) {
                found = true;
                break;
            }
            i += 1;
        }
        if found {
            assert(prev[i as int].0 == patterns@[i as int].pixels@);
            assert(position_of(prev, pixels@) == i);
            assert(prev[i as int].1 <= k);
            let weight = patterns[i].weight + 1;
            patterns[i].weight = weight;
            assert(entries_of(patterns@) =~= add_tile(prev, pixels@));
        } else {
            proof {
                let p = position_of(prev, pixels@);
                if p < prev.len() {
                    assert(prev[p] == entry_of(patterns@[p]));
                    assert(patterns@[p].pixels@ != pixels@);
                }
            }
            patterns.push(Pattern { pixels, weight: 1 });
            assert(entries_of(patterns@) =~= add_tile(prev, tiles[k as int]));
        }
        k += 1;
    }
    assert(tiles.take(n as int) =~= tiles);
    proof {
        lemma_catalog_of(tiles);
    }
    assert(entries_of(patterns@) == catalog_of(tiles));
    let d = PatternData {
        image_height: height,
        image_width: width,
        pattern_height,
        pattern_width,
        patterns,
    };
    assert forall|i: int| 0 <= i < d.patterns@.len() implies (#[trigger] d.patterns@[i]).weight
        >= 1 by {
        assert(d.entries()[i] == entry_of(d.patterns@[i]));
        assert(catalog_of(tiles)[i].1 >= 1);
    }
    assert forall|i: int, j: int| 0 <= i < j < d.patterns@.len() implies #[trigger] d.patterns@[
        i].pixels@ != #[trigger] d.patterns@[j].pixels@ by {
        assert(d.entries()[i] == entry_of(d.patterns@[i]));
        assert(d.entries()[j] == entry_of(d.patterns@[j]));
        assert(catalog_of(tiles)[i].0 != catalog_of(tiles)[j].0);
    }
    assert(tiles.len() == width as int * height as int);
    assert(width as int * height as int >= 1) by (nonlinear_arith)
        requires
            width >= 1,
            height >= 1,
    ;
    assert(d.patterns@.len() >= 1);
    assert(d.total_weight() == width as int * height as int);
    Ok(d)
}

} // verus!
