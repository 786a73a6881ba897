use pathtrace::skybox::texel_index;

#[test]
fn top_row_for_straight_up() {
    assert_eq!(texel_index(0, 0, 2500, 1250), 0);
    assert_eq!(texel_index(1249, 0, 2500, 1250), 1249);
}

#[test]
fn bottom_row_is_clamped() {
    assert_eq!(texel_index(0, 1250, 2500, 1250), 1249 * 2500);
    assert_eq!(texel_index(17, 1249, 2500, 1250), 1249 * 2500 + 17);
    assert_eq!(texel_index(17, u64::MAX, 2500, 1250), 1249 * 2500 + 17);
}

#[test]
fn column_wraps_around() {
    assert_eq!(texel_index(2500, 3, 2500, 1250), 3 * 2500);
    assert_eq!(texel_index(2501, 0, 2500, 1250), 1);
}
