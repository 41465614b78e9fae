use driving_sim::alignment::{
    text_origin, HorizontalAlignment, VerticalAlignment, BOTTOM_LEFT, CENTERED, TOP_RIGHT,
};

#[test]
fn text_sits_where_it_is_aligned() {
    assert_eq!(text_origin((800, 600), (100, 20), BOTTOM_LEFT), (0, 580));
    assert_eq!(text_origin((800, 600), (100, 20), TOP_RIGHT), (700, 0));
    assert_eq!(text_origin((800, 600), (100, 20), CENTERED), (350, 290));
    assert_eq!(
        text_origin((800, 600), (100, 20), (HorizontalAlignment::Left, VerticalAlignment::Top)),
        (0, 0)
    );
}

#[test]
fn text_larger_than_the_window_hangs_over() {
    assert_eq!(text_origin((100, 50), (300, 60), CENTERED), (-100, -5));
    assert_eq!(text_origin((100, 50), (301, 61), CENTERED), (-100, -5));
    assert_eq!(text_origin((100, 50), (300, 60), (HorizontalAlignment::Right, VerticalAlignment::Bottom)), (-200, -10));
    assert_eq!(
        text_origin((0, 0), (u32::MAX, u32::MAX), (HorizontalAlignment::Right, VerticalAlignment::Bottom)),
        (-(u32::MAX as i64), -(u32::MAX as i64))
    );
}

#[test]
fn the_named_alignments_are_what_they_say() {
    assert_eq!(BOTTOM_LEFT, (HorizontalAlignment::Left, VerticalAlignment::Bottom));
    assert_eq!(TOP_RIGHT, (HorizontalAlignment::Right, VerticalAlignment::Top));
    assert_eq!(CENTERED, (HorizontalAlignment::Center, VerticalAlignment::Center));
}
