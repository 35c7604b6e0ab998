use mandel::plane::{axis, row_coordinates};

fn reference(k: u32, n: u32) -> f32 {
    let step = 4.0f32 / (n as f32);
    let d = step / 2.0;
    (k as f32) * step + d - (4.0f32 / 2.0)
}

#[test]
fn a_single_pixel_sits_at_the_origin() {
    assert_eq!(axis(0, 1).to_bits(), 0.0f32.to_bits());
    let row = row_coordinates(1, 1, 0);
    assert_eq!(row.len(), 1);
    assert_eq!(row[0].to_bits(), [0, 0, 0, 0]);
}

#[test]
fn two_by_two_samples_the_quadrant_centres() {
    let low = (-1.0f32).to_bits();
    let high = 1.0f32.to_bits();
    assert_eq!(axis(0, 2).to_bits(), low);
    assert_eq!(axis(1, 2).to_bits(), high);
    let top = row_coordinates(2, 2, 0);
    assert_eq!(top.len(), 2);
    assert_eq!(top[0].to_bits(), [low, low, 0, 0]);
    assert_eq!(top[1].to_bits(), [high, low, 0, 0]);
    let bottom = row_coordinates(2, 2, 1);
    assert_eq!(bottom[0].to_bits(), [low, high, 0, 0]);
    assert_eq!(bottom[1].to_bits(), [high, high, 0, 0]);
}

#[test]
fn positions_match_the_hardware() {
    for n in [1u32, 2, 3, 7, 100, 333, 1000, 65536, 16_777_217, u32::MAX] {
        for k in [0u32, 1, 2, 5, 99, 332, 999, 65535, 16_777_216, u32::MAX - 1] {
            assert_eq!(axis(k, n).to_bits(), reference(k, n).to_bits(), "{} of {}", k, n);
        }
    }
    for k in 0..100u32 {
        assert_eq!(axis(k, 100).to_bits(), reference(k, 100).to_bits());
    }
}

#[test]
fn an_axis_without_pixels_has_an_infinite_pitch() {
    assert!(axis(0, 0).is_nan());
    assert_eq!(axis(1, 0).to_bits(), f32::INFINITY.to_bits());
    assert_eq!(row_coordinates(0, 5, 0).len(), 0);
}

#[test]
fn a_row_has_one_coordinate_per_column() {
    let row = row_coordinates(100, 50, 7);
    assert_eq!(row.len(), 100);
    for (i, v) in row.iter().enumerate() {
        assert_eq!(v.to_bits(), [reference(i as u32, 100).to_bits(), reference(7, 50).to_bits(), 0, 0]);
    }
}
