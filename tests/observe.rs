use std::collections::HashSet;

use wfc::build_propagator::{build_propagator, PatternPropagator};
use wfc::extract_patterns::extract_patterns;
use wfc::image::Image;
use wfc::observe::{calculate_entropy, collapse_wave_entry, find_lowest_entropy_index, observe};
use wfc::wave::{calculate_adjacent_indices, initialize_wave, Wave};

fn set(v: Vec<usize>) -> HashSet<usize> {
    v.into_iter().collect()
}

fn entropy_term(weight: u64, total: u64) -> u64 {
    let p = weight as f64 / total as f64;
    (-(p * p.ln()) * 4294967296.0) as u64
}

fn entropy_terms(weights: &[u64], total: u64) -> Vec<u64> {
    weights.iter().map(|w| entropy_term(*w, total)).collect()
}

fn propagator_of_row(data: Vec<u32>) -> PatternPropagator {
    let image = Image {
        width: data.len() as u32,
        height: 1,
        data,
    };
    build_propagator(extract_patterns(image, 1, 1).unwrap())
}

#[test]
fn it_calculates_adjacent_indices() {
    // Example, width = 5, height = 4
    //  0  1  2  3  4
    //  5  6  7  8  9
    // 10 11 12 13 14
    // 15 16 17 18 19
    let width = 5;
    let height = 4;

    // corners
    let indices = set(calculate_adjacent_indices(width, height, 0));
    assert_eq!(indices, set(vec![1, 5, 6]));
    let indices = set(calculate_adjacent_indices(width, height, 4));
    assert_eq!(indices, set(vec![3, 8, 9]));
    let indices = set(calculate_adjacent_indices(width, height, 15));
    assert_eq!(indices, set(vec![10, 11, 16]));
    let indices = set(calculate_adjacent_indices(width, height, 19));
    assert_eq!(indices, set(vec![13, 14, 18]));

    // edges
    let indices = set(calculate_adjacent_indices(width, height, 1));
    assert_eq!(indices, set(vec![0, 2, 5, 6, 7]));
    let indices = set(calculate_adjacent_indices(width, height, 14));
    assert_eq!(indices, set(vec![8, 9, 13, 18, 19]));
    let indices = set(calculate_adjacent_indices(width, height, 17));
    assert_eq!(indices, set(vec![11, 12, 13, 16, 18]));
    let indices = set(calculate_adjacent_indices(width, height, 5));
    assert_eq!(indices, set(vec![0, 1, 6, 10, 11]));

    // center
    let indices = set(calculate_adjacent_indices(width, height, 6));
    assert_eq!(indices, set(vec![0, 1, 2, 5, 7, 10, 11, 12]));
    let indices = set(calculate_adjacent_indices(width, height, 12));
    assert_eq!(indices, set(vec![6, 7, 8, 11, 13, 16, 17, 18]));
}

#[test]
fn adjacent_indices_come_in_a_fixed_order() {
    assert_eq!(calculate_adjacent_indices(5, 4, 6), vec![1, 0, 2, 11, 10, 12, 5, 7]);
    assert_eq!(calculate_adjacent_indices(1, 1, 0), Vec::<usize>::new());
}

#[test]
fn it_finds_the_lowest_entropy_in_an_8_neighborhood() {
    let terms = entropy_terms(&[1, 1, 2, 3, 4, 5], 16);

    let wave = Wave {
        width: 3,
        height: 2,
        last_index_collapsed: Some(0),
        indices: vec![
            vec![0],
            vec![2, 2, 2],
            vec![4, 1],
            vec![4, 1, 1],
            vec![1, 1, 1, 1, 1, 1],
            vec![0],
        ],
    };

    // Note that wave elements in the neighborhood all have a summed weight of 6
    // but index 3 wins since it is "densest".
    // Also note that index 2 has lowest (non-singular) global entropy but is not picked
    // since it is not in the neighborhood.
    let lowest_entropy_index = find_lowest_entropy_index(&wave, &terms);
    assert_eq!(lowest_entropy_index, Some(3));
}

#[test]
fn it_extends_the_lowest_entropy_search_to_the_entire_wave() {
    let terms = entropy_terms(&[1, 1, 2, 3, 4, 5], 16);

    let wave = Wave {
        width: 3,
        height: 2,
        last_index_collapsed: Some(0),
        indices: vec![vec![0], vec![1], vec![4, 1], vec![1], vec![1], vec![3, 2]],
    };

    let lowest_entropy_index = find_lowest_entropy_index(&wave, &terms);
    assert_eq!(lowest_entropy_index, Some(2));
}

#[test]
fn lowest_entropy_ties_go_to_the_first_cell() {
    let wave = Wave {
        width: 3,
        height: 1,
        last_index_collapsed: None,
        indices: vec![vec![0], vec![0, 1], vec![1, 0]],
    };
    assert_eq!(find_lowest_entropy_index(&wave, &vec![3, 4]), Some(1));
}

#[test]
fn nothing_left_to_collapse_gives_none() {
    let wave = Wave {
        width: 2,
        height: 1,
        last_index_collapsed: Some(1),
        indices: vec![vec![0], vec![1]],
    };
    assert_eq!(find_lowest_entropy_index(&wave, &vec![3, 4]), None);
}

#[test]
fn entropy_sums_the_candidates_terms() {
    assert_eq!(calculate_entropy(&vec![2, 0, 2], &vec![10, 20, 30]), 70);
    assert_eq!(calculate_entropy(&vec![], &vec![10, 20, 30]), 0);
}

#[test]
fn it_initializes_the_wave() {
    let propagator = propagator_of_row((0..10).collect());
    assert_eq!(propagator.pattern_data.patterns.len(), 10);

    let wave = initialize_wave(&propagator, 7, 7);

    assert_eq!(wave.indices[0][3], 3);
    assert_eq!(wave.indices[4][3], 3);
    assert_eq!(wave.indices[6][3], 3);
    assert_eq!(wave.indices[8][3], 3);
    assert_eq!(wave.indices[48][3], 3);

    assert_eq!(wave.indices[0][7], 7);
    assert_eq!(wave.indices[4][7], 7);
    assert_eq!(wave.indices[6][7], 7);
    assert_eq!(wave.indices[8][7], 7);
    assert_eq!(wave.indices[48][7], 7);
}

#[test]
fn fresh_wave_cells_hold_every_pattern() {
    let propagator = propagator_of_row(vec![4, 9, 4, 2]);
    let wave = initialize_wave(&propagator, 3, 5);
    assert_eq!(wave.indices.len(), 15);
    for cell in &wave.indices {
        assert_eq!(cell, &vec![0, 1, 2]);
    }
    assert_eq!(wave.last_index_collapsed, None);
}

#[test]
fn collapse_follows_the_cumulative_weights() {
    // weights: color 5 three times, 6 once, 7 twice
    let propagator = propagator_of_row(vec![5, 5, 5, 6, 7, 7]);
    let expected = [0, 0, 0, 1, 2, 2];
    for draw in 0..6u128 {
        let mut wave = initialize_wave(&propagator, 2, 2);
        collapse_wave_entry(3, &mut wave, &propagator, draw);
        assert_eq!(wave.indices[3], vec![expected[draw as usize]]);
        assert_eq!(wave.last_index_collapsed, Some(3));
        assert_eq!(wave.indices[0], vec![0, 1, 2]);
    }
}

#[test]
fn observe_collapses_one_cell_to_one_of_its_candidates() {
    let propagator = propagator_of_row(vec![0, 1, 2]);
    let terms = entropy_terms(&[1, 1, 1], 3);
    let mut wave = initialize_wave(&propagator, 1, 1);
    wave.indices[0] = vec![1, 2];
    assert!(observe(&mut wave, &propagator, &terms));
    assert_eq!(wave.indices[0].len(), 1);
    assert!(wave.indices[0][0] == 1 || wave.indices[0][0] == 2);
    assert_eq!(wave.last_index_collapsed, Some(0));
    assert!(!observe(&mut wave, &propagator, &terms));
}

#[test]
fn first_observation_scans_the_whole_wave() {
    let propagator = propagator_of_row(vec![0, 1]);
    let terms = entropy_terms(&[1, 1], 2);
    let mut wave = initialize_wave(&propagator, 3, 3);
    assert!(observe(&mut wave, &propagator, &terms));
    assert_eq!(wave.last_index_collapsed, Some(0));
    assert_eq!(wave.indices[0].len(), 1);
    for c in 1..9 {
        assert_eq!(wave.indices[c], vec![0, 1]);
    }
    // the next one is taken around the last collapsed cell
    assert!(observe(&mut wave, &propagator, &terms));
    assert_eq!(wave.last_index_collapsed, Some(3));
}
