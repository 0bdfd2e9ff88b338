use skeletal_animation_plugin::glyphs::{
    digit_pattern_row, number_width, push_digit, push_minus, push_number, GlyphRect,
};

fn cells(rects: &[GlyphRect]) -> Vec<(u32, u32)> {
    rects.iter().map(|r| (r.x, r.y)).collect()
}

#[test]
fn digit_one_pattern() {
    let mut rects = Vec::new();
    push_digit(&mut rects, 0, 1);
    // 010 / 110 / 010 / 010 / 111
    assert_eq!(
        cells(&rects),
        vec![(2, 0), (0, 2), (2, 2), (2, 4), (2, 6), (0, 8), (2, 8), (4, 8)]
    );
    assert!(rects.iter().all(|r| r.w == 2 && r.h == 2));
}

#[test]
fn digit_eight_has_thirteen_cells() {
    let mut rects = Vec::new();
    push_digit(&mut rects, 10, 8);
    assert_eq!(rects.len(), 13);
    assert!(rects.iter().all(|r| r.x >= 10 && r.x < 16 && r.y < 10));
    assert_eq!(digit_pattern_row(8, 1), 0b101);
    assert_eq!(digit_pattern_row(4, 4), 0b001);
}

#[test]
fn minus_is_a_middle_bar() {
    let mut rects = Vec::new();
    push_minus(&mut rects, 3);
    assert_eq!(rects, vec![GlyphRect { x: 3, y: 4, w: 6, h: 2 }]);
}

#[test]
fn number_widths() {
    assert_eq!(number_width(0), 6);
    assert_eq!(number_width(7), 6);
    assert_eq!(number_width(10), 14);
    assert_eq!(number_width(-1), 14);
    assert_eq!(number_width(-120), 30);
    assert_eq!(number_width(i64::MIN), 20 * 8 - 2);
    assert_eq!(number_width(i64::MAX), 19 * 8 - 2);
}

#[test]
fn push_number_returns_number_width() {
    for n in [0i64, 5, 9, 10, 99, 100, -1, -9, -10, 12345, -98765, i64::MIN, i64::MAX] {
        let mut rects = Vec::new();
        let w = push_number(&mut rects, n);
        assert_eq!(w, number_width(n), "width of {}", n);
        assert!(rects.iter().all(|r| r.x + r.w <= w), "rects of {} stay within width", n);
    }
}

#[test]
fn push_number_lays_out_glyphs_left_to_right() {
    let mut rects = Vec::new();
    let w = push_number(&mut rects, -17);
    assert_eq!(w, 22);
    // Minus bar, then "1" at 8, then "7" at 16.
    assert_eq!(rects[0], GlyphRect { x: 0, y: 4, w: 6, h: 2 });
    let mut one = Vec::new();
    push_digit(&mut one, 8, 1);
    let mut seven = Vec::new();
    push_digit(&mut seven, 16, 7);
    let mut expected = vec![GlyphRect { x: 0, y: 4, w: 6, h: 2 }];
    expected.extend(one);
    expected.extend(seven);
    assert_eq!(rects, expected);
}

#[test]
fn push_number_appends_to_existing_rects() {
    let mut rects = vec![GlyphRect { x: 1, y: 1, w: 1, h: 1 }];
    push_number(&mut rects, 0);
    assert_eq!(rects.len(), 1 + 12);
    assert_eq!(rects[0], GlyphRect { x: 1, y: 1, w: 1, h: 1 });
}
