use wfc::build_propagator::build_propagator;
use wfc::error::SynthesisError;
use wfc::extract_patterns::extract_patterns;
use wfc::image::Image;
use wfc::observe::collapse_wave_entry;
use wfc::pattern_data::{Pattern, PatternData};
use wfc::propagate::{propagate, put_wave_neighbors_on_stack};
use wfc::wave::initialize_wave;

#[test]
fn it_yyy() {
    let mut index_stack = vec![0, 1, 2, 3, 4, 5, 6, 7, 8, 9];

    let mut i = 0;
    while i < index_stack.len() {
        if index_stack[i] == 0 || index_stack[i] == 9 {
            index_stack.swap_remove(i);
        } else {
            i += 1;
        }
    }

    println!("{:?}", index_stack);
}

#[test]
fn it_xxx() {
    let mut index_stack = vec![(1, 1), (2, 1), (3, 1), (1, 4), (1, 5), (1, 6), (1, 8)];

    while let Some((i, j)) = index_stack.pop() {
        println!("{} {}", i, j);

        if i == 1 {
            index_stack.push((2, j));
        }
    }
}

#[test]
fn neighbors_go_on_the_stack_as_edges() {
    let mut stack = vec![(9, 9)];
    put_wave_neighbors_on_stack(0, 3, 2, &mut stack);
    assert_eq!(stack, vec![(9, 9), (0, 3), (0, 4), (0, 1)]);
}

fn distinct_exemplar_propagator() -> wfc::build_propagator::PatternPropagator {
    let image = Image {
        width: 4,
        height: 3,
        data: vec![0, 1, 2, 3, 4, 5, 6, 7, 8, 9, 10, 11],
    };
    build_propagator(extract_patterns(image, 2, 2).unwrap())
}

#[test]
fn propagation_only_shrinks_cells() {
    let propagator = distinct_exemplar_propagator();
    let mut wave = initialize_wave(&propagator, 5, 4);
    collapse_wave_entry(7, &mut wave, &propagator, 0);
    let before = wave.indices.clone();
    let r = propagate(&mut wave, &propagator);
    assert_eq!(r, Ok(()));
    for c in 0..before.len() {
        assert!(wave.indices[c].len() <= before[c].len());
        for p in &wave.indices[c] {
            assert!(before[c].contains(p));
        }
    }
    // the tile right of the one at the exemplar's corner is the next one along
    assert_eq!(wave.indices[7], vec![0]);
    assert_eq!(wave.indices[8], vec![1]);
    assert_eq!(wave.indices[12], vec![4]);
    assert_eq!(wave.indices[6], vec![3]);
}

#[test]
fn propagation_without_a_collapse_changes_nothing() {
    let propagator = distinct_exemplar_propagator();
    let mut wave = initialize_wave(&propagator, 3, 3);
    assert_eq!(propagate(&mut wave, &propagator), Ok(()));
    for cell in &wave.indices {
        assert_eq!(cell.len(), 12);
    }
}

#[test]
fn incompatible_patterns_give_a_contradiction() {
    // two 2x2 patterns that disagree with each other and with themselves at
    // every neighbouring offset
    let pattern_data = PatternData {
        image_height: 2,
        image_width: 2,
        pattern_height: 2,
        pattern_width: 2,
        patterns: vec![
            Pattern {
                pixels: vec![0, 1, 2, 3],
                weight: 2,
            },
            Pattern {
                pixels: vec![4, 5, 6, 7],
                weight: 2,
            },
        ],
    };
    let propagator = build_propagator(pattern_data);
    let mut wave = initialize_wave(&propagator, 3, 3);
    collapse_wave_entry(4, &mut wave, &propagator, 0);
    let r = propagate(&mut wave, &propagator);
    assert_eq!(r, Err(SynthesisError::Contradiction));
    assert!(wave.indices.iter().any(|c| c.is_empty()));
}

#[test]
fn propagation_keeps_a_consistent_choice() {
    // 1x1 patterns never overlap a neighbour: every choice is consistent, so
    // nothing may be removed and no contradiction may be reported
    let image = Image {
        width: 3,
        height: 1,
        data: vec![0, 1, 2],
    };
    let propagator = build_propagator(extract_patterns(image, 1, 1).unwrap());
    let mut wave = initialize_wave(&propagator, 3, 3);
    collapse_wave_entry(4, &mut wave, &propagator, 1);
    assert_eq!(propagate(&mut wave, &propagator), Ok(()));
    assert_eq!(wave.indices[4], vec![1]);
    for c in [0, 1, 2, 3, 5, 6, 7, 8] {
        assert_eq!(wave.indices[c], vec![0, 1, 2]);
    }
}
