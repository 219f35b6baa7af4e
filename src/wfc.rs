use vstd::prelude::*;

use crate::build_propagator::{build_propagator, offset_count, overlap_matches, PatternPropagator};
use crate::error::SynthesisError;
use crate::extract_patterns::{catalog_of, extract_patterns, tiles_of, valid_pattern_size};
use crate::image::Image;
use crate::observe::observe;
use crate::pattern_data::{entry_of, lemma_weight_sum_at_least_len};
use crate::propagate::{allows_everything, propagate, shrunk};
use crate::wave::{
    indices_below, initialize_wave, lemma_fresh_wave_uncollapsed, lemma_uncollapsed,
    lemma_uncollapsed_monotone, uncollapsed, Wave,
};

verus! {

/// The sizes of one synthesis run.
#[derive(Clone, Copy, Debug, PartialEq, Eq, Structural)]
pub struct Args {
    pub pattern_width: u32,
    pub pattern_height: u32,
    pub target_image_width: u32,
    pub target_image_height: u32,
}

/// Whether a run's sizes can be used with an exemplar: a pattern size that
/// fits in the exemplar and a nonempty target.
pub open spec fn valid_args(image: Image, args: Args) -> bool {
    &&& valid_pattern_size(image, args.pattern_width as int, args.pattern_height as int)
    &&& args.target_image_width >= 1
    &&& args.target_image_height >= 1
}

/// Whether the run's tables fit in memory: a compatibility table for as many
/// patterns as the exemplar has pixels, and one candidate set per output cell.
pub open spec fn run_fits(image: Image, args: Args) -> bool {
    let area = image.width as int * image.height as int;
    &&& area * area * offset_count(args.pattern_width as int, args.pattern_height as int)
        <= usize::MAX
    &&& args.target_image_width as int * args.target_image_height as int <= usize::MAX
}

/// Whether every tile of a catalog agrees with every tile, itself included,
/// wherever they overlap at every neighbouring offset.
pub open spec fn catalog_unconstrained(catalog: Seq<(Seq<u32>, int)>, pw: int, ph: int) -> bool {
    forall|a: int, b: int, dx: int, dy: int|
        0 <= a < catalog.len() && 0 <= b < catalog.len() && -1 <= dx <= 1 && -1 <= dy <= 1 ==> #[trigger] overlap_matches(
            catalog[a].0,
            catalog[b].0,
            pw,
            ph,
            dx,
            dy,
        )
}

/// The image a fully collapsed wave shows: each cell takes the top-left color
/// of its one remaining pattern.
pub open spec fn rendered(wave: Wave, prop: PatternPropagator) -> Seq<u32> {
    Seq::new(
        wave.size() as nat,
        |c: int| prop.pattern_data.patterns@[wave.cells()[c][0] as int].pixels@[0],
    )
}

proof fn lemma_shrunk_trans(a: Seq<usize>, b: Seq<usize>, c: Seq<usize>)
    requires
        shrunk(a, b),
        shrunk(b, c),
    ensures
        shrunk(a, c),
{
    assert forall|k: int| 0 <= k < a.len() implies c.contains(#[trigger] a[k]) by {
        assert(b.contains(a[k]));
        let m = b.index_of(a[k]);
        assert(c.contains(b[m]));
    }
}

/// Renders a wave whose cells all hold exactly one pattern: each cell takes
/// the color at the origin of its pattern.
pub fn combine_observations(wave: &Wave, propagator: &PatternPropagator) -> (image: Image)
    requires
        propagator.wf(),
        wave.wf(propagator.count()),
        forall|c: int| 0 <= c < wave.size() ==> #[trigger] wave.cells()[c].len() == 1,
    ensures
        image.width == wave.width,
        image.height == wave.height,
        image.wf(),
        image.data@ == rendered(*wave, *propagator),
{
    let n = wave.indices.len();
    let mut data: Vec<u32> = Vec::with_capacity(n);
    let mut c: usize = 0;
    while c < n
        invariant
            propagator.wf(),
            wave.wf(propagator.count()),
            forall|c: int| 0 <= c < wave.size() ==> #[trigger] wave.cells()[c].len() == 1,
            n == wave.size(),
            c <= n,
            data@ == rendered(*wave, *propagator).take(c as int),
        decreases n - c,
    {
        assert(wave.cells()[c as int] == wave.indices@[c as int]@);
        let p = wave.indices[c][0];
        assert(p < propagator.count());
        let pattern = &propagator.pattern_data.patterns[p];
        assert(pattern.pixels@.len() >= 1) by (nonlinear_arith)
            requires
                pattern.pixels@.len() == propagator.pattern_data.pattern_width as int
                    * propagator.pattern_data.pattern_height as int,
                propagator.pattern_data.pattern_width >= 1,
                propagator.pattern_data.pattern_height >= 1,
        ;
        data.push(pattern.pixels[0]);
        c += 1;
        assert(data@ =~= rendered(*wave, *propagator).take(c as int));
    }
    assert(rendered(*wave, *propagator).take(n as int) =~= rendered(*wave, *propagator));
    Image { width: wave.width, height: wave.height, data }
}

/// Runs the observe / propagate loop until no cell has more than one
/// candidate, and returns how many cells it collapsed. Stops at the first
/// contradiction.
pub fn collapse_wave(wave: &mut Wave, propagator: &PatternPropagator, entropy_terms: &Vec<u64>) -> (r:
    Result<usize, SynthesisError>)
    requires
        propagator.wf(),
        old(wave).wf(propagator.count()),
        entropy_terms@.len() == propagator.count(),
        forall|c: int| 0 <= c < old(wave).size() ==> #[trigger] old(wave).cells()[c].len() >= 1,
    ensures
        final(wave).wf(propagator.count()),
        final(wave).width == old(wave).width,
        final(wave).height == old(wave).height,
        forall|c: int|
            0 <= c < old(wave).size() ==> shrunk(#[trigger] final(wave).cells()[c], old(wave).cells()[c]),
        match r {
            Ok(_) => forall|c: int| 0 <= c < old(wave).size() ==> #[trigger] final(wave).cells()[c].len() == 1,
            Err(e) => e == SynthesisError::Contradiction,
        },
        uncollapsed(old(wave).cells()) == 0 ==> r == Ok::<usize, SynthesisError>(0),
        allows_everything(*propagator) ==> r == Ok::<usize, SynthesisError>(
            uncollapsed(old(wave).cells()) as usize,
        ),
{
    let ghost start = old(wave).cells();
    let ghost n = propagator.count();
    let mut count: usize = 0;
    assert(wave.indices@.len() == wave.indices.len());
    proof {
        lemma_uncollapsed(start);
        assert forall|c: int| 0 <= c < start.len() implies shrunk(#[trigger] start[c], start[c]) by {
            assert forall|k: int| 0 <= k < start[c].len() implies start[c].contains(#[trigger] start[c][k]) by {}
        }
    }
    loop
        invariant
            propagator.wf(),
            n == propagator.count(),
            wave.wf(n),
            entropy_terms@.len() == n,
            wave.width == old(wave).width,
            wave.height == old(wave).height,
            start == old(wave).cells(),
            start.len() == wave.size(),
            uncollapsed(start) <= start.len(),
            start.len() <= usize::MAX,
            forall|c: int| 0 <= c < wave.size() ==> #[trigger] wave.cells()[c].len() >= 1,
            forall|c: int| 0 <= c < wave.size() ==> shrunk(#[trigger] wave.cells()[c], start[c]),
            count + uncollapsed(wave.cells()) <= uncollapsed(start),
            allows_everything(*propagator) ==> count + uncollapsed(wave.cells()) == uncollapsed(start),
        ensures
            uncollapsed(wave.cells()) == 0,
        decreases uncollapsed(wave.cells()),
    {
        let ghost before = wave.cells();
        proof {
            lemma_uncollapsed(before);
        }
        if !observe(wave, propagator, entropy_terms) {
            break;
        }
        let ghost mid = wave.cells();
        proof {
            assert forall|c: int| 0 <= c < wave.size() implies shrunk(#[trigger] mid[c], start[c]) && mid[c].len() >= 1 by {
                assert(shrunk(before[c], start[c]));
                if mid[c] != before[c] {
                    let k = choose|k: int| 0 <= k < before[c].len() && mid == before.update(c, seq![before[c][k]]);
                    assert(before[c].contains(before[c][k]));
                    lemma_shrunk_trans(mid[c], before[c], start[c]);
                }
            }
        }
        match propagate(wave, propagator) {
            Err(e) => {
                return Err(e);
            },
            Ok(()) => {},
        }
        proof {
            assert forall|c: int| 0 <= c < wave.size() implies shrunk(#[trigger] wave.cells()[c], start[c]) by {
                lemma_shrunk_trans(wave.cells()[c], mid[c], start[c]);
            }
            assert forall|c: int| 0 <= c < wave.size() implies #[trigger] wave.cells()[c].len() >= 1 by {
                assert(mid[c].len() >= 1);
            }
            assert forall|c: int| 0 <= c < wave.cells().len() implies #[trigger] wave.cells()[c].len() <= mid[c].len() by {
                assert(shrunk(wave.cells()[c], mid[c]));
            }
            lemma_uncollapsed_monotone(wave.cells(), mid);
            lemma_uncollapsed(wave.cells());
        }
        count += 1;
    }
    proof {
        lemma_uncollapsed(wave.cells());
    }
    assert(uncollapsed(start) == 0 ==> count == 0);
    Ok(count)
}

/// Synthesizes a `target_image_width` x `target_image_height` image that
/// locally resembles the exemplar: extracts the patterns, builds their
/// compatibilities, then collapses a fresh wave cell by cell. The caller gives
/// each pattern's entropy term, from its weight and the catalog's total
/// weight, as a fixed-point integer. Fails on sizes that do not fit the
/// exemplar, and on a contradiction.
pub fn run<F: Fn(u64, u64) -> u64>(image: Image, args: Args, entropy_term: F) -> (r: Result<
    Image,
    SynthesisError,
>)
    requires
        image.wf(),
        valid_args(image, args) ==> run_fits(image, args),
        forall|weight: u64, total: u64| entropy_term.requires((weight, total)),
    ensures
        !valid_args(image, args) <==> r == Err::<Image, SynthesisError>(
            SynthesisError::InvalidConfiguration,
        ),
        match r {
            Ok(out) => {
                let catalog = catalog_of(
                    tiles_of(image, args.pattern_width as int, args.pattern_height as int),
                );
                &&& out.width == args.target_image_width
                &&& out.height == args.target_image_height
                &&& out.wf()
                &&& forall|c: int|
                    0 <= c < out.data@.len() ==> exists|p: int|
                        0 <= p < catalog.len() && #[trigger] out.data@[c] == catalog[p].0[0]
            },
            Err(_) => true,
        },
        valid_args(image, args) && catalog_unconstrained(
            catalog_of(tiles_of(image, args.pattern_width as int, args.pattern_height as int)),
            args.pattern_width as int,
            args.pattern_height as int,
        ) ==> r is Ok,
{
    if args.target_image_width == 0 || args.target_image_height == 0 {
        return Err(SynthesisError::InvalidConfiguration);
    }
    let ghost exemplar = image;
    let pattern_data = match extract_patterns(image, args.pattern_width, args.pattern_height) {
        Ok(d) => d,
        Err(e) => {
            return Err(e);
        },
    };
    let ghost pd = pattern_data;
    let ghost catalog = catalog_of(
        tiles_of(exemplar, args.pattern_width as int, args.pattern_height as int),
    );
    proof {
        assert forall|i: int| 0 <= i < pd.entries().len() implies #[trigger] pd.entries()[i].1 >= 1 by {
            assert(pd.entries()[i] == entry_of(pd.patterns@[i]));
        }
        lemma_weight_sum_at_least_len(pd.entries());
        let area = exemplar.width as int * exemplar.height as int;
        let count = pd.patterns@.len() as int;
        let s = offset_count(args.pattern_width as int, args.pattern_height as int);
        assert(s >= 1) by (nonlinear_arith)
            requires
                s == (2 * args.pattern_width - 1) * (2 * args.pattern_height - 1),
                args.pattern_width >= 1,
                args.pattern_height >= 1,
        ;
        assert(count * count * s <= area * area * s) by (nonlinear_arith)
            requires
                0 <= count <= area,
                s >= 1,
        ;
    }
    let propagator = build_propagator(pattern_data);
    proof {
        if catalog_unconstrained(catalog, args.pattern_width as int, args.pattern_height as int) {
            assert forall|a: int, b: int, dx: int, dy: int|
                0 <= a < propagator.count() && 0 <= b < propagator.count() && -1 <= dx <= 1 && -1
                    <= dy <= 1 implies #[trigger] propagator.allows(a, b, dx, dy) by {
                assert(pd.entries()[a] == entry_of(pd.patterns@[a]));
                assert(pd.entries()[b] == entry_of(pd.patterns@[b]));
                assert(overlap_matches(
                    catalog[a].0,
                    catalog[b].0,
                    args.pattern_width as int,
                    args.pattern_height as int,
                    dx,
                    dy,
                ));
            }
            assert(allows_everything(propagator));
        }
    }
    let n = propagator.pattern_data.patterns.len();
    let total = propagator.total_weight;
    let mut terms: Vec<u64> = Vec::with_capacity(n);
    let mut p: usize = 0;
    while p < n
        invariant
            n == propagator.count(),
            p <= n,
            terms@.len() == p,
            forall|weight: u64, total: u64| entropy_term.requires((weight, total)),
        decreases n - p,
    {
        terms.push(entropy_term(propagator.pattern_data.patterns[p].weight, total));
        p += 1;
    }
    let mut wave = initialize_wave(&propagator, args.target_image_width, args.target_image_height);
    assert forall|c: int| 0 <= c < wave.size() implies #[trigger] wave.cells()[c].len() >= 1 by {}
    match collapse_wave(&mut wave, &propagator, &terms) {
        Ok(_) => {},
        Err(e) => {
            return Err(e);
        },
    }
    let out = combine_observations(&wave, &propagator);
    assert forall|c: int| 0 <= c < out.data@.len() implies exists|q: int|
        0 <= q < catalog.len() && #[trigger] out.data@[c] == catalog[q].0[0] by {
        let q = wave.cells()[c][0] as int;
        assert(wave.indices@[c]@[0] < n);
        assert(pd.entries()[q] == entry_of(pd.patterns@[q]));
        assert(out.data@[c] == catalog[q].0[0]);
    }
    Ok(out)
}

/// A catalog of a single pattern that agrees with itself at every
/// neighbouring offset constrains nothing, so `propagate` never removes a
/// candidate and `collapse_wave` collapses, one observation each, exactly the
/// cells it finds uncollapsed; on a fresh wave over two or more such mutually
/// agreeing patterns that is every cell of the grid.
pub proof fn lemma_unconstrained_catalog(prop: PatternPropagator, width: int, height: int)
    requires
        width >= 0,
        height >= 0,
        prop.count() == 1 ==> forall|dx: int, dy: int|
            -1 <= dx <= 1 && -1 <= dy <= 1 ==> #[trigger] prop.allows(0, 0, dx, dy),
    ensures
        prop.count() == 1 ==> allows_everything(prop),
        allows_everything(prop) && prop.count() >= 2 ==> uncollapsed(
            Seq::new((width * height) as nat, |c: int| indices_below(prop.count())),
        ) == width * height,
{
    if prop.count() == 1 {
        assert forall|a: int, b: int, dx: int, dy: int|
            0 <= a < prop.count() && 0 <= b < prop.count() && -1 <= dx <= 1 && -1 <= dy <= 1 implies #[trigger] prop.allows(
            a,
            b,
            dx,
            dy,
        ) by {
            assert(a == 0 && b == 0);
        }
    }
    assert(width * height >= 0) by (nonlinear_arith)
        requires
            width >= 0,
            height >= 0,
    ;
    lemma_fresh_wave_uncollapsed(prop.count(), width * height);
}

} // verus!
