use webgl2_glyph_atlas::packing::{PackingNode, Rect, RectSize};

fn size(width: u32, height: u32) -> RectSize {
    RectSize { height, width }
}

fn overlaps(a: (u32, u32, RectSize), b: (u32, u32, RectSize)) -> bool {
    a.0 < b.0 + b.2.width && b.0 < a.0 + a.2.width && a.1 < b.1 + b.2.height && b.1 < a.1 + a.2.height
}

#[test]
fn fits_in_compares_both_dimensions() {
    assert!(size(4, 4).fits_in(size(4, 4)));
    assert!(size(3, 4).fits_in(size(4, 4)));
    assert!(!size(5, 4).fits_in(size(4, 4)));
    assert!(!size(4, 5).fits_in(size(4, 4)));
}

#[test]
fn area_is_width_times_height() {
    assert_eq!(size(6, 7).area(), 42);
    assert_eq!(size(0, 7).area(), 0);
}

#[test]
fn rect_new_keeps_fields() {
    let r = Rect::new(1, 2, 3, 4);
    assert_eq!(r, Rect { x: 1, y: 2, size: size(3, 4) });
}

#[test]
fn tie_splits_vertically_then_second_square_goes_right() {
    let mut p = PackingNode::new(10, 10);
    assert_eq!(p.insert_rect(size(4, 4)), Some((0, 0)));
    // The first square left a 10 x 4 strip and a 10 x 6 band below it.
    assert_eq!(p.insert_rect(size(6, 10)), None);
    assert_eq!(p.insert_rect(size(4, 4)), Some((4, 0)));
}

#[test]
fn band_below_first_square_takes_exact_fit() {
    let mut p = PackingNode::new(10, 10);
    assert_eq!(p.insert_rect(size(4, 4)), Some((0, 0)));
    assert_eq!(p.insert_rect(size(10, 6)), Some((0, 4)));
    assert_eq!(p.insert_rect(size(4, 4)), Some((4, 0)));
    let placed = [(0, 0, size(4, 4)), (0, 4, size(10, 6)), (4, 0, size(4, 4))];
    for i in 0..placed.len() {
        for j in 0..placed.len() {
            if i != j {
                assert!(!overlaps(placed[i], placed[j]));
            }
        }
    }
}

#[test]
fn whole_canvas_fits_once() {
    let mut p = PackingNode::new(8, 8);
    assert_eq!(p.insert_rect(size(8, 8)), Some((0, 0)));
    assert_eq!(p.insert_rect(size(8, 8)), None);
    assert_eq!(p.insert_rect(size(1, 1)), None);
}

#[test]
fn oversized_and_empty_requests_fail() {
    let mut p = PackingNode::new(8, 8);
    assert_eq!(p.insert_rect(size(9, 1)), None);
    assert_eq!(p.insert_rect(size(1, 9)), None);
    assert_eq!(p.insert_rect(size(0, 0)), None);
    assert_eq!(p.insert_rect(size(8, 8)), Some((0, 0)));
}

#[test]
fn zero_width_request_is_placed() {
    let mut p = PackingNode::new(8, 8);
    assert_eq!(p.insert_rect(size(0, 3)), Some((0, 0)));
    assert_eq!(p.insert_rect(size(8, 8)), Some((0, 0)));
}

#[test]
fn filling_exactly_then_one_more_fails() {
    let mut p = PackingNode::new(4, 4);
    let mut spots = Vec::new();
    for _ in 0..4 {
        spots.push(p.insert_rect(size(2, 2)).unwrap());
    }
    assert_eq!(p.insert_rect(size(1, 1)), None);
    for i in 0..spots.len() {
        for j in 0..spots.len() {
            if i != j {
                assert!(!overlaps((spots[i].0, spots[i].1, size(2, 2)), (spots[j].0, spots[j].1, size(2, 2))));
            }
        }
        assert!(spots[i].0 + 2 <= 4 && spots[i].1 + 2 <= 4);
    }
}

#[test]
fn many_inserts_stay_disjoint_and_in_bounds() {
    let mut p = PackingNode::new(64, 64);
    let mut placed = Vec::new();
    let mut k: u32 = 0;
    while k < 200 {
        let s = size(1 + (k * 7) % 13, 1 + (k * 5) % 11);
        if let Some((x, y)) = p.insert_rect(s) {
            assert!(x + s.width <= 64 && y + s.height <= 64);
            placed.push((x, y, s));
        }
        k += 1;
    }
    assert!(!placed.is_empty());
    for i in 0..placed.len() {
        for j in (i + 1)..placed.len() {
            assert!(!overlaps(placed[i], placed[j]));
        }
    }
}
