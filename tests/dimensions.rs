use repeaty::dimensions::{pixels_per_millimeter, DimensionModel, Ratio, ValidationError};

fn ratio(num: u128, den: u128) -> Ratio {
    Ratio { num, den }
}

fn same_value(a: Ratio, b: Ratio) -> bool {
    a.num * b.den == b.num * a.den
}

fn suffix(m: &DimensionModel) -> String {
    String::from_utf8(m.output_suffix()).unwrap()
}

#[test]
fn density_from_pixels_per_meter() {
    assert_eq!(pixels_per_millimeter(Some(11811)), ratio(11811, 1000));
    assert_eq!(pixels_per_millimeter(None), ratio(720, 254));
    assert_eq!(pixels_per_millimeter(Some(0)), ratio(720, 254));
}

#[test]
fn new_model_repeats_five_times() {
    let m = DimensionModel::new(100, 50, Some(11811));
    assert_eq!(m.repeat_x, ratio(5, 1));
    assert_eq!(m.repeat_y, ratio(5, 1));
    assert!(same_value(m.dim_mm_x, ratio(500_000, 11811)));
    assert!(same_value(m.dim_mm_y, ratio(250_000, 11811)));
    assert_eq!(m.output_pixel_size(), Ok((500, 250)));
}

#[test]
fn default_density_is_72_dpi() {
    // 72 pixels span one inch, 25.4 mm.
    let mut m = DimensionModel::new(72, 144, None);
    m.set_repeat_x(ratio(1, 1));
    m.set_repeat_y(ratio(1, 1));
    assert!(same_value(m.dim_mm_x, ratio(254, 10)));
    assert!(same_value(m.dim_mm_y, ratio(508, 10)));
    assert_eq!(suffix(&m), "__1x1__25.40x50.80mm");
}

#[test]
fn setting_repeat_updates_size() {
    let mut m = DimensionModel::new(100, 100, Some(11811));
    m.set_repeat_x(ratio(2, 1));
    m.set_repeat_y(ratio(2, 1));
    assert!(same_value(m.dim_mm_x, ratio(200_000, 11811)));
    assert!(same_value(m.dim_mm_y, ratio(200_000, 11811)));
}

#[test]
fn setting_size_updates_repeat() {
    let mut m = DimensionModel::new(200, 100, Some(10000));
    m.set_dim_mm_x(ratio(60, 1));
    m.set_dim_mm_y(ratio(25, 1));
    assert!(same_value(m.repeat_x, ratio(3, 1)));
    assert!(same_value(m.repeat_y, ratio(5, 2)));
    assert_eq!(m.output_pixel_size(), Ok((600, 250)));
    assert_eq!(suffix(&m), "__3x2.50__60x25mm");
}

#[test]
fn repeat_round_trips_through_size() {
    for (w, ppm, r) in [(100u32, 11811u32, ratio(2, 1)), (37, 2835, ratio(7, 3)), (1, 1, ratio(123, 1000))] {
        let mut m = DimensionModel::new(w, w, Some(ppm));
        m.set_repeat_x(r);
        let dim = m.dim_mm_x;
        m.set_dim_mm_x(dim);
        assert!(same_value(m.repeat_x, r));
        assert_eq!(m.dim_mm_x, dim);
    }
}

#[test]
fn fractional_repeat_rounds_to_nearest_pixel() {
    let mut m = DimensionModel::new(100, 3, None);
    m.set_repeat_x(ratio(25, 10));
    m.set_repeat_y(ratio(5, 2));
    // 250 exactly, and 7.5 rounds half up to 8.
    assert_eq!(m.output_pixel_size(), Ok((250, 8)));
    m.set_repeat_y(ratio(2, 1) );
    m.set_repeat_x(ratio(2449, 1000));
    // 244.9 rounds to 245.
    assert_eq!(m.output_pixel_size(), Ok((245, 6)));
    m.set_repeat_x(ratio(2444, 1000));
    assert_eq!(m.output_pixel_size(), Ok((244, 6)));
}

#[test]
fn zero_values_are_not_rendered() {
    let mut m = DimensionModel::new(100, 100, None);
    m.set_repeat_x(ratio(0, 1));
    assert_eq!(m.output_pixel_size(), Err(ValidationError::NotPositive));
    let mut m = DimensionModel::new(100, 100, None);
    m.set_dim_mm_y(ratio(0, 7));
    assert_eq!(m.output_pixel_size(), Err(ValidationError::NotPositive));
}

#[test]
fn oversized_output_is_refused() {
    let mut m = DimensionModel::new(4_000_000_000, 1, None);
    m.set_repeat_x(ratio(2, 1));
    assert_eq!(m.output_pixel_size(), Err(ValidationError::TooLarge));
}

#[test]
fn end_to_end_sizes_and_suffix() {
    let mut m = DimensionModel::new(100, 100, Some(11811));
    m.set_repeat_x(ratio(2, 1));
    m.set_repeat_y(ratio(2, 1));
    assert_eq!(m.output_pixel_size(), Ok((200, 200)));
    assert_eq!(suffix(&m), "__2x2__16.93x16.93mm");
}

#[test]
fn suffix_prints_near_whole_values_as_integers() {
    let mut m = DimensionModel::new(10, 10, Some(1000));
    m.set_repeat_x(ratio(2999, 1000));
    m.set_dim_mm_y(ratio(120, 1));
    assert_eq!(suffix(&m), "__3x12__29.99x120mm");
    m.set_repeat_x(ratio(2989, 1000));
    assert_eq!(suffix(&m), "__2.99x12__29.89x120mm");
    m.set_repeat_x(ratio(1, 200));
    assert_eq!(suffix(&m), "__0x12__0.05x120mm");
}
