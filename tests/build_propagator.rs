use wfc::build_propagator::{
    build_propagator, is_inside_interval_intersection, is_intersection_match, PatternPropagator,
};
use wfc::extract_patterns::extract_patterns;
use wfc::image::Image;

fn build_simple_propagator() -> PatternPropagator {
    let pattern_width = 3;
    let pattern_height = 2;
    let image = Image {
        width: 4,
        height: 3,
        data: vec![0, 1, 2, 3, 4, 5, 6, 7, 8, 9, 10, 11],
    };

    let pattern_data = extract_patterns(image, pattern_width, pattern_height).unwrap();

    // no duplicates, so a pattern's index is the index of its top-left pixel
    assert_eq!(
        pattern_data.patterns.len(),
        (pattern_data.image_width * pattern_data.image_height) as usize,
    );

    build_propagator(pattern_data)
}

#[test]
fn it_checks_if_pattern_intersections_match() {
    let c1 = vec![
        1, 1, 1, 1, 1, //
        1, 1, 1, 1, 1, //
        1, 1, 1, 2, 2,
    ];
    let c2 = vec![
        2, 2, 1, 1, 1, //
        1, 1, 3, 1, 1, //
        1, 1, 1, 1, 1,
    ];
    let w = 5;
    let h = 3;

    assert!(!is_intersection_match(&c1, &c2, 0, 0, w, h));
    assert!(!is_intersection_match(&c1, &c2, -2, 0, w, h));
    assert!(is_intersection_match(&c1, &c2, 10, 50, w, h));
    assert!(is_intersection_match(&c1, &c2, -20, 0, w, h));
    assert!(is_intersection_match(&c1, &c2, -3, 0, w, h));
    assert!(is_intersection_match(&c1, &c2, -3, -1, w, h));
    assert!(is_intersection_match(&c1, &c2, 3, 2, w, h));
}

#[test]
fn it_initializes_a_propagator() {
    let propagator = build_simple_propagator();

    let pi = propagator.pattern_data.get_pixel_index(10, 0, 0);
    assert_eq!(propagator.pattern_pixels[pi].color, 10);
    let pi = propagator.pattern_data.get_pixel_index(10, 1, 0);
    assert_eq!(propagator.pattern_pixels[pi].color, 11);
    let pi = propagator.pattern_data.get_pixel_index(10, 2, 0);
    assert_eq!(propagator.pattern_pixels[pi].color, 8);
    let pi = propagator.pattern_data.get_pixel_index(10, 0, 1);
    assert_eq!(propagator.pattern_pixels[pi].color, 2);
    let pi = propagator.pattern_data.get_pixel_index(10, 1, 1);
    assert_eq!(propagator.pattern_pixels[pi].color, 3);
    let pi = propagator.pattern_data.get_pixel_index(10, 2, 1);
    assert_eq!(propagator.pattern_pixels[pi].color, 0);

    let pi = propagator.pattern_data.get_pixel_index(5, 0, 0);
    assert_eq!(propagator.pattern_pixels[pi].color, 5);
    let pi = propagator.pattern_data.get_pixel_index(5, 1, 0);
    assert_eq!(propagator.pattern_pixels[pi].color, 6);
    let pi = propagator.pattern_data.get_pixel_index(5, 2, 0);
    assert_eq!(propagator.pattern_pixels[pi].color, 7);
    let pi = propagator.pattern_data.get_pixel_index(5, 0, 1);
    assert_eq!(propagator.pattern_pixels[pi].color, 9);
    let pi = propagator.pattern_data.get_pixel_index(5, 1, 1);
    assert_eq!(propagator.pattern_pixels[pi].color, 10);
    let pi = propagator.pattern_data.get_pixel_index(5, 2, 1);
    assert_eq!(propagator.pattern_pixels[pi].color, 11);
}

#[test]
fn it_calculates_the_relationships_for_a_propagator() {
    let propagator = build_simple_propagator();

    let pi = propagator.pattern_data.get_pixel_index(5, 0, 0);
    let ri = propagator.pattern_data.get_relationship_index(5, 1, 0, 1, 0);
    assert!(propagator.pixel_relationship(pi, ri));

    let pi = propagator.pattern_data.get_pixel_index(5, 0, 0);
    let ri = propagator.pattern_data.get_relationship_index(6, 0, 0, 1, 0);
    // note that pixels are NOT adjacent
    assert!(!propagator.pixel_relationship(pi, ri));

    let pi = propagator.pattern_data.get_pixel_index(5, 1, 0);
    let ri = propagator.pattern_data.get_relationship_index(4, 1, 0, 0, 0);
    assert!(propagator.pixel_relationship(pi, ri));

    let pi = propagator.pattern_data.get_pixel_index(1, 0, 0);
    let ri = propagator.pattern_data.get_relationship_index(1, 1, 1, 1, 1);
    assert!(propagator.pixel_relationship(pi, ri));

    let pi = propagator.pattern_data.get_pixel_index(1, 1, 1);
    let ri = propagator.pattern_data.get_relationship_index(5, 2, 0, 2, 1);
    assert!(propagator.pixel_relationship(pi, ri));

    let pi = propagator.pattern_data.get_pixel_index(1, 1, 1);
    let ri = propagator.pattern_data.get_relationship_index(5, 2, 0, 0, 1);
    // note that the pattern image does not allow the 6 to be right of the 7
    assert!(!propagator.pixel_relationship(pi, ri));
}

#[test]
fn pixel_list_carries_positions_and_weights() {
    let propagator = build_simple_propagator();
    assert_eq!(propagator.pattern_pixels.len(), 12 * 6);
    let pixel = propagator.pattern_pixels[propagator.pattern_data.get_pixel_index(7, 2, 1)];
    assert_eq!((pixel.x, pixel.y, pixel.weight, pixel.color), (2, 1, 1, 9));
    assert_eq!(propagator.total_weight, 12);
}

#[test]
fn compatibility_matches_the_overlap_of_neighbouring_tiles() {
    let propagator = build_simple_propagator();
    let data = &propagator.pattern_data;
    for a in 0..data.patterns.len() {
        for b in 0..data.patterns.len() {
            for dy in -2i64..=2 {
                for dx in -3i64..=3 {
                    let expected =
                        is_intersection_match(&data.patterns[a].pixels, &data.patterns[b].pixels, dx, dy, 3, 2);
                    assert_eq!(propagator.compatible(a, b, dx, dy), expected);
                }
            }
        }
    }
    // pattern 5 sits one to the right of pattern 4 in the exemplar
    assert!(propagator.compatible(4, 5, 1, 0));
    assert!(!propagator.compatible(4, 6, 1, 0));
    assert!(propagator.compatible(4, 8, 0, 1));
    assert!(!propagator.compatible(4, 9, 0, 1));
}

#[test]
fn interval_intersection_follows_the_start_offset() {
    assert!(is_inside_interval_intersection(1, -2, 5));
    assert!(!is_inside_interval_intersection(3, -2, 5));
    assert!(is_inside_interval_intersection(3, 3, 5));
    assert!(!is_inside_interval_intersection(2, 3, 5));
    assert!(is_inside_interval_intersection(4, 0, 5));
}
