use wfc::pattern_data::PatternData;

fn empty_catalog(w: u32, h: u32) -> PatternData {
    PatternData {
        image_height: 0,
        image_width: 0,
        pattern_height: h,
        pattern_width: w,
        patterns: Vec::new(),
    }
}

#[test]
fn it_calculates_relationship_indices() {
    let w = 5;
    let h = 3;
    let p = 8;

    let pattern_data = empty_catalog(w, h);

    let mut indices = Vec::new();
    for i in 0..p {
        for y in 0..h {
            for x in 0..w {
                for v in 0..h {
                    for u in 0..w {
                        let index = pattern_data.get_relationship_index(i, x, y, u, v);
                        indices.push(index);
                    }
                }
            }
        }
    }

    assert_eq!(indices.len(), p * (w * h * w * h) as usize);
    for i in 0..indices.len() {
        assert_eq!(indices[i], i);
    }
}

#[test]
fn pixel_indices_run_pattern_by_pattern_row_major() {
    let pattern_data = empty_catalog(3, 2);
    let mut expected = 0;
    for p in 0..4 {
        for y in 0..2 {
            for x in 0..3 {
                assert_eq!(pattern_data.get_pixel_index(p, x, y), expected);
                expected += 1;
            }
        }
    }
    assert_eq!(pattern_data.get_pixel_index(10, 2, 1), 65);
}
