use rust_ds_algo::video_codec::{fixed_prediction, rice_quotient, Pixel, Plane};

#[test]
fn prediction_takes_the_smaller_neighbour_under_a_high_corner() {
    assert_eq!(fixed_prediction(10, 20, 25), 10);
    assert_eq!(fixed_prediction(20, 10, 20), 10);
}

#[test]
fn prediction_takes_the_larger_neighbour_over_a_low_corner() {
    assert_eq!(fixed_prediction(10, 20, 5), 20);
    assert_eq!(fixed_prediction(20, 10, 10), 20);
}

#[test]
fn prediction_follows_the_gradient_in_between() {
    assert_eq!(fixed_prediction(10, 20, 15), 15);
    assert_eq!(fixed_prediction(100, 40, 41), 99);
    assert_eq!(fixed_prediction(65535, 0, 1), 65534);
}

#[test]
fn prediction_of_equal_neighbours() {
    assert_eq!(fixed_prediction(7, 7, 7), 7);
    assert_eq!(fixed_prediction(7, 7, 0), 7);
    assert_eq!(fixed_prediction(7, 7, 9), 7);
    assert_eq!(fixed_prediction(Pixel::MAX, Pixel::MAX, 3), 65535);
}

#[test]
fn rice_quotient_divides_by_a_power_of_two() {
    assert_eq!(rice_quotient(0, 17), 17);
    assert_eq!(rice_quotient(2, 17), 4);
    assert_eq!(rice_quotient(3, 1024), 128);
    assert_eq!(rice_quotient(63, u64::MAX), 1);
    assert_eq!(rice_quotient(63, 5), 0);
}

#[test]
fn plane_holds_its_geometry() {
    let plane = Plane { data: vec![0u16; 12], width: 4, height: 3, sample_stride: 1, row_stride: 4 };
    assert_eq!(plane.data.len(), plane.row_stride * plane.height);
    assert_eq!(plane.width, 4);
    assert_eq!(plane.sample_stride, 1);
}
