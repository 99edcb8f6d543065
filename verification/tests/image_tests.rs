use wfc::image_data::pack_rgba;
use wfc::image_data::wrap_value;
use wfc::image_data::ImageData;

#[test]
fn wrap_value_keeps_values_inside_the_range() {
    assert_eq!(wrap_value(0, 5), 0);
    assert_eq!(wrap_value(3, 5), 3);
    assert_eq!(wrap_value(4, 5), 4);
}

#[test]
fn wrap_value_folds_large_values() {
    assert_eq!(wrap_value(5, 5), 0);
    assert_eq!(wrap_value(7, 5), 2);
    assert_eq!(wrap_value(isize::MAX, 1), 0);
}

#[test]
fn wrap_value_folds_negative_values_into_the_range() {
    assert_eq!(wrap_value(-1, 5), 4);
    assert_eq!(wrap_value(-4, 5), 1);
    assert_eq!(wrap_value(-6, 5), 4);
}

#[test]
fn wrap_value_of_a_negative_multiple_is_zero() {
    assert_eq!(wrap_value(-5, 5), 0);
    assert_eq!(wrap_value(-10, 5), 0);
    assert_eq!(wrap_value(-1, 1), 0);
}

#[test]
fn wrap_value_handles_the_smallest_integer() {
    assert_eq!(wrap_value(isize::MIN, 2), 0);
    assert_eq!(wrap_value(isize::MIN + 1, 2), 1);
}

#[test]
fn new_image_is_all_zero() {
    let img = ImageData::new(3, 2);
    assert_eq!(img.width(), 3);
    assert_eq!(img.height(), 2);
    assert_eq!(img.pixels(), &[0u32; 6][..]);
}

#[test]
fn from_pixels_keeps_the_pixels() {
    let img = ImageData::from_pixels(&[1, 2, 3, 4, 5, 6], 3, 2);
    assert_eq!(img.width(), 3);
    assert_eq!(img.height(), 2);
    assert_eq!(img.pixels(), &[1u32, 2, 3, 4, 5, 6][..]);
}

#[test]
fn get_pixel_reads_row_major() {
    let img = ImageData::from_pixels(&[1, 2, 3, 4, 5, 6], 3, 2);
    assert_eq!(img.get_pixel(0, 0), 1);
    assert_eq!(img.get_pixel(2, 0), 3);
    assert_eq!(img.get_pixel(0, 1), 4);
    assert_eq!(img.get_pixel(2, 1), 6);
}

#[test]
fn get_pixel_outside_is_zero() {
    let img = ImageData::from_pixels(&[1, 2, 3, 4, 5, 6], 3, 2);
    assert_eq!(img.get_pixel(3, 0), 0);
    assert_eq!(img.get_pixel(0, 2), 0);
    assert_eq!(img.get_pixel(usize::MAX, usize::MAX), 0);
}

#[test]
fn get_pixel_wrap_goes_around_the_edges() {
    let img = ImageData::from_pixels(&[1, 2, 3, 4, 5, 6], 3, 2);
    assert_eq!(img.get_pixel_wrap(0, 0), 1);
    assert_eq!(img.get_pixel_wrap(3, 0), 1);
    assert_eq!(img.get_pixel_wrap(-1, 0), 3);
    assert_eq!(img.get_pixel_wrap(0, -1), 4);
    assert_eq!(img.get_pixel_wrap(-1, -1), 6);
    assert_eq!(img.get_pixel_wrap(4, 3), 5);
    assert_eq!(img.get_pixel_wrap(-3, -2), 1);
}

#[test]
fn pixels_mut_writes_through() {
    let mut img = ImageData::new(2, 2);
    img.pixels_mut()[3] = 9;
    assert_eq!(img.get_pixel(1, 1), 9);
    assert_eq!(img.width(), 2);
    assert_eq!(img.height(), 2);
    assert_eq!(img.pixels(), &[0u32, 0, 0, 9][..]);
}

#[test]
fn pack_rgba_puts_red_lowest_and_alpha_highest() {
    let pixels = pack_rgba(&[0x11, 0x22, 0x33, 0x44, 0xff, 0x00, 0x00, 0x80]);
    assert_eq!(pixels, vec![0x4433_2211, 0x8000_00ff]);
}

#[test]
fn pack_rgba_drops_what_is_left_over() {
    assert_eq!(pack_rgba(&[1, 2, 3]), Vec::<u32>::new());
    assert_eq!(pack_rgba(&[]), Vec::<u32>::new());
    assert_eq!(pack_rgba(&[1, 0, 0, 0, 9, 9]), vec![1]);
}

#[test]
fn a_cloned_image_holds_the_same_pixels() {
    let mut img = ImageData::from_pixels(&[1, 2, 3, 4], 2, 2);
    let copy = img.clone();
    img.pixels_mut()[0] = 9;
    assert_eq!(copy.width(), 2);
    assert_eq!(copy.height(), 2);
    assert_eq!(copy.pixels(), &[1u32, 2, 3, 4][..]);
}
