use wfc::error::SynthesisError;
use wfc::extract_patterns::extract_patterns;
use wfc::image::Image;

fn image_4x3(data: Vec<u32>) -> Image {
    Image {
        width: 4,
        height: 3,
        data,
    }
}

#[test]
fn it_extracts_patterns_in_proper_order() {
    let pattern_width = 3;
    let pattern_height = 2;
    let image = image_4x3(vec![0, 1, 2, 3, 4, 5, 6, 7, 8, 9, 10, 11]);

    let pattern_data = extract_patterns(image, pattern_width, pattern_height).unwrap();

    assert_eq!(pattern_data.patterns[0].pixels, vec![0, 1, 2, 4, 5, 6]);
    assert_eq!(pattern_data.patterns[1].pixels, vec![1, 2, 3, 5, 6, 7]);
    assert_eq!(pattern_data.patterns[2].pixels, vec![2, 3, 0, 6, 7, 4]);
    assert_eq!(pattern_data.patterns[3].pixels, vec![3, 0, 1, 7, 4, 5]);

    assert_eq!(pattern_data.patterns[4].pixels, vec![4, 5, 6, 8, 9, 10]);
    assert_eq!(pattern_data.patterns[5].pixels, vec![5, 6, 7, 9, 10, 11]);
    assert_eq!(pattern_data.patterns[6].pixels, vec![6, 7, 4, 10, 11, 8]);
    assert_eq!(pattern_data.patterns[7].pixels, vec![7, 4, 5, 11, 8, 9]);

    assert_eq!(pattern_data.patterns[8].pixels, vec![8, 9, 10, 0, 1, 2]);
    assert_eq!(pattern_data.patterns[9].pixels, vec![9, 10, 11, 1, 2, 3]);
    assert_eq!(pattern_data.patterns[10].pixels, vec![10, 11, 8, 2, 3, 0]);
    assert_eq!(pattern_data.patterns[11].pixels, vec![11, 8, 9, 3, 0, 1]);
}

#[test]
fn it_extracts_patterns_without_duplicates() {
    let image = image_4x3(vec![0, 1, 2, 3, 4, 5, 6, 7, 8, 9, 10, 11]);

    let pattern_data = extract_patterns(image, 3, 2).unwrap();
    assert_eq!(pattern_data.patterns.len(), 12);
    for i in 0..pattern_data.patterns.len() {
        assert_eq!(pattern_data.patterns[i].weight, 1);
    }
}

#[test]
fn it_extracts_patterns_with_all_duplicates() {
    let image = image_4x3(vec![0; 12]);

    let pattern_data = extract_patterns(image, 3, 2).unwrap();
    assert_eq!(pattern_data.patterns.len(), 1);
    for i in 0..pattern_data.patterns.len() {
        assert_eq!(pattern_data.patterns[i].weight, 12);
    }
}

#[test]
fn it_extracts_patterns_with_half_duplicates() {
    let image = image_4x3(vec![0, 1, 0, 1, 2, 3, 2, 3, 4, 5, 4, 5]);

    let pattern_data = extract_patterns(image, 3, 2).unwrap();
    assert_eq!(pattern_data.patterns.len(), 6);
    for i in 0..pattern_data.patterns.len() {
        assert_eq!(pattern_data.patterns[i].weight, 2);
    }
}

#[test]
fn weights_sum_to_exemplar_area() {
    let images = vec![
        (4u32, 3u32, vec![0, 1, 2, 3, 4, 5, 6, 7, 8, 9, 10, 11]),
        (4, 3, vec![0, 1, 0, 1, 2, 3, 2, 3, 4, 5, 4, 5]),
        (5, 2, vec![7, 7, 8, 7, 7, 8, 7, 7, 9, 9]),
        (1, 1, vec![3]),
    ];
    for (width, height, data) in images {
        for pattern_width in 1..=width {
            for pattern_height in 1..=height {
                let image = Image {
                    width,
                    height,
                    data: data.clone(),
                };
                let d = extract_patterns(image, pattern_width, pattern_height).unwrap();
                let sum: u64 = d.patterns.iter().map(|p| p.weight).sum();
                assert_eq!(sum, (width * height) as u64);
                assert_eq!(d.image_width, width);
                assert_eq!(d.image_height, height);
            }
        }
    }
}

#[test]
fn extraction_is_deterministic() {
    let data = vec![5, 1, 5, 2, 1, 1, 2, 5, 5, 2, 1, 1];
    let a = extract_patterns(image_4x3(data.clone()), 2, 2).unwrap();
    let b = extract_patterns(image_4x3(data), 2, 2).unwrap();
    assert_eq!(a.patterns.len(), b.patterns.len());
    for i in 0..a.patterns.len() {
        assert_eq!(a.patterns[i].pixels, b.patterns[i].pixels);
        assert_eq!(a.patterns[i].weight, b.patterns[i].weight);
    }
}

#[test]
fn extraction_wraps_around_both_edges() {
    let d = extract_patterns(image_4x3(vec![0, 1, 2, 3, 4, 5, 6, 7, 8, 9, 10, 11]), 2, 2).unwrap();
    // the tile whose corner is the bottom-right pixel
    assert_eq!(d.patterns[11].pixels, vec![11, 8, 3, 0]);
}

#[test]
fn full_size_patterns_are_rotations_of_the_exemplar() {
    let d = extract_patterns(image_4x3(vec![0, 1, 2, 3, 4, 5, 6, 7, 8, 9, 10, 11]), 4, 3).unwrap();
    assert_eq!(d.patterns.len(), 12);
    assert_eq!(d.patterns[0].pixels, vec![0, 1, 2, 3, 4, 5, 6, 7, 8, 9, 10, 11]);
    assert_eq!(d.patterns[5].pixels, vec![5, 6, 7, 4, 9, 10, 11, 8, 1, 2, 3, 0]);
}

#[test]
fn zero_pattern_size_is_invalid() {
    let r = extract_patterns(image_4x3(vec![0; 12]), 0, 2);
    assert!(matches!(r, Err(SynthesisError::InvalidConfiguration)));
    let r = extract_patterns(image_4x3(vec![0; 12]), 2, 0);
    assert!(matches!(r, Err(SynthesisError::InvalidConfiguration)));
}

#[test]
fn pattern_larger_than_exemplar_is_invalid() {
    let r = extract_patterns(image_4x3(vec![0; 12]), 5, 2);
    assert!(matches!(r, Err(SynthesisError::InvalidConfiguration)));
    let r = extract_patterns(image_4x3(vec![0; 12]), 2, 4);
    assert!(matches!(r, Err(SynthesisError::InvalidConfiguration)));
}
