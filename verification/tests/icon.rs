use sigil_phone::icon::mark_on_field;

#[test]
fn the_mark_sits_in_the_middle_over_its_background() {
    // A 3×1 field with a 1-pixel mark: the mark is the middle pixel.
    let raster = [200u8, 100, 0, 255];
    let out = mark_on_field(&raster, [10, 20, 30], 3, 1, 1);
    assert_eq!(out, vec![10, 20, 30, 255, 200, 100, 0, 255, 10, 20, 30, 255]);
}

#[test]
fn a_transparent_mark_shows_the_field_and_a_half_one_blends() {
    let clear = mark_on_field(&[200, 100, 0, 0], [10, 20, 30], 1, 1, 1);
    assert_eq!(clear, vec![10, 20, 30, 255]);
    // 200 at 128 over 10: (200·128 + 10·127) / 255 = 105.
    let half = mark_on_field(&[200, 100, 0, 128], [10, 20, 30], 1, 1, 1);
    assert_eq!(half, vec![105, 60, 14, 255]);
}

#[test]
fn an_odd_margin_puts_the_extra_pixel_after_the_mark() {
    // 4×4 field, 1-pixel mark: (4 - 1) / 2 = 1, so the mark is at (1, 1).
    let out = mark_on_field(&[255, 255, 255, 255], [0, 0, 0], 4, 4, 1);
    assert_eq!(out.len(), 64);
    let at = |x: usize, y: usize| out[(y * 4 + x) * 4];
    assert_eq!(at(1, 1), 255);
    assert_eq!(at(2, 2), 0);
    assert_eq!(at(0, 0), 0);
    assert!(out.chunks(4).all(|p| p[3] == 255));
}

#[test]
fn a_mark_the_size_of_the_field_covers_it() {
    let raster: Vec<u8> = (0..4).flat_map(|i| [i as u8, 0, 0, 255]).collect();
    let out = mark_on_field(&raster, [9, 9, 9], 2, 2, 2);
    assert_eq!(out, raster);
}
