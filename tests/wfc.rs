use wfc::build_propagator::build_propagator;
use wfc::error::SynthesisError;
use wfc::extract_patterns::extract_patterns;
use wfc::image::Image;
use wfc::wave::initialize_wave;
use wfc::wfc::{collapse_wave, combine_observations, run, Args};

fn entropy_term(weight: u64, total: u64) -> u64 {
    let p = weight as f64 / total as f64;
    (-(p * p.ln()) * 4294967296.0) as u64
}

fn args(pattern_width: u32, pattern_height: u32, target_width: u32, target_height: u32) -> Args {
    Args {
        pattern_width,
        pattern_height,
        target_image_width: target_width,
        target_image_height: target_height,
    }
}

fn distinct_exemplar() -> Image {
    Image {
        width: 4,
        height: 3,
        data: vec![0, 1, 2, 3, 4, 5, 6, 7, 8, 9, 10, 11],
    }
}

#[test]
fn unconstrained_catalog_collapses_every_cell_once() {
    // 1x1 patterns never overlap a neighbour, so nothing is ever removed
    let image = Image {
        width: 2,
        height: 1,
        data: vec![0, 1],
    };
    let propagator = build_propagator(extract_patterns(image, 1, 1).unwrap());
    let terms = vec![entropy_term(1, 2), entropy_term(1, 2)];
    let mut wave = initialize_wave(&propagator, 4, 3);
    assert_eq!(collapse_wave(&mut wave, &propagator, &terms), Ok(12));
    let out = combine_observations(&wave, &propagator);
    assert_eq!((out.width, out.height, out.data.len()), (4, 3, 12));
    for c in 0..12 {
        assert_eq!(out.data[c], wave.indices[c][0] as u32);
    }
}

#[test]
fn single_pattern_catalog_is_collapsed_from_the_start() {
    let image = Image {
        width: 4,
        height: 3,
        data: vec![7; 12],
    };
    let propagator = build_propagator(extract_patterns(image, 3, 2).unwrap());
    let terms = vec![entropy_term(12, 12)];
    let mut wave = initialize_wave(&propagator, 5, 4);
    assert_eq!(collapse_wave(&mut wave, &propagator, &terms), Ok(0));
    let out = combine_observations(&wave, &propagator);
    assert_eq!(out.data, vec![7; 20]);
}

#[test]
fn uniform_exemplar_synthesizes_a_uniform_image() {
    let image = Image {
        width: 4,
        height: 3,
        data: vec![3; 12],
    };
    let out = run(image, args(3, 2, 6, 5), entropy_term).unwrap();
    assert_eq!((out.width, out.height), (6, 5));
    assert_eq!(out.data, vec![3; 30]);
}

#[test]
fn synthesized_pixels_are_pattern_origins() {
    let exemplar = distinct_exemplar();
    let patterns = extract_patterns(distinct_exemplar(), 2, 2).unwrap().patterns;
    match run(exemplar, args(2, 2, 7, 6), entropy_term) {
        Ok(out) => {
            assert_eq!((out.width, out.height, out.data.len()), (7, 6, 42));
            for color in &out.data {
                assert!(patterns.iter().any(|p| p.pixels[0] == *color));
            }
        }
        Err(e) => assert_eq!(e, SynthesisError::Contradiction),
    }
}

#[test]
fn distinct_exemplar_is_reproduced_as_a_shifted_tiling() {
    let out = run(distinct_exemplar(), args(2, 2, 5, 4), entropy_term).unwrap();
    let first = out.data[0] as usize;
    let (x0, y0) = (first % 4, first / 4);
    for y in 0..4 {
        for x in 0..5 {
            let expected = ((y0 + y) % 3) * 4 + (x0 + x) % 4;
            assert_eq!(out.data[y * 5 + x] as usize, expected);
        }
    }
}

#[test]
fn zero_target_is_invalid() {
    let r = run(distinct_exemplar(), args(2, 2, 0, 4), entropy_term);
    assert_eq!(r.err(), Some(SynthesisError::InvalidConfiguration));
    let r = run(distinct_exemplar(), args(2, 2, 4, 0), entropy_term);
    assert_eq!(r.err(), Some(SynthesisError::InvalidConfiguration));
}

#[test]
fn bad_pattern_size_is_invalid() {
    let r = run(distinct_exemplar(), args(0, 2, 4, 4), entropy_term);
    assert_eq!(r.err(), Some(SynthesisError::InvalidConfiguration));
    let r = run(distinct_exemplar(), args(2, 4, 4, 4), entropy_term);
    assert_eq!(r.err(), Some(SynthesisError::InvalidConfiguration));
}
