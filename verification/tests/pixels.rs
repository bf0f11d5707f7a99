use media_sift::pixels::{blend_with_cleaned, median_filter_3x3, RgbPixels};

fn grey_image(width: u32, height: u32, values: &[u8]) -> RgbPixels {
    let mut data = Vec::new();
    for value in values {
        data.push(*value);
        data.push(*value);
        data.push(*value);
    }
    RgbPixels::new(width, height, data).expect("three bytes per pixel")
}

#[test]
fn pixel_buffer_must_hold_three_bytes_per_pixel() {
    assert!(RgbPixels::new(2, 2, vec![0; 12]).is_some());
    assert!(RgbPixels::new(2, 2, vec![0; 11]).is_none());
    assert!(RgbPixels::new(2, 2, vec![0; 13]).is_none());
    assert!(RgbPixels::new(0, 5, Vec::new()).is_some());
}

#[test]
fn median_filter_removes_an_isolated_speck() {
    let image = grey_image(3, 3, &[0, 0, 0, 0, 255, 0, 0, 0, 0]);
    let cleaned = median_filter_3x3(&image);
    assert_eq!(cleaned.width, 3);
    assert_eq!(cleaned.height, 3);
    assert_eq!(cleaned.data, vec![0; 27]);
}

#[test]
fn median_filter_takes_the_upper_middle_of_an_even_window() {
    let image = grey_image(3, 1, &[10, 200, 30]);
    let cleaned = median_filter_3x3(&image);
    let red: Vec<u8> = cleaned.data.iter().step_by(3).copied().collect();
    assert_eq!(red, vec![200, 30, 200]);
}

#[test]
fn median_filter_works_on_each_channel_alone() {
    let data = vec![
        1, 100, 7, //
        2, 50, 8, //
        3, 0, 9, //
    ];
    let image = RgbPixels::new(3, 1, data).expect("three pixels");
    let cleaned = median_filter_3x3(&image);
    assert_eq!(cleaned.data, vec![2, 100, 8, 2, 50, 8, 3, 50, 9]);
}

#[test]
fn median_filter_keeps_an_empty_image_empty() {
    let image = RgbPixels::new(0, 0, Vec::new()).expect("empty");
    let cleaned = median_filter_3x3(&image);
    assert!(cleaned.data.is_empty());
}

#[test]
fn blend_weights_the_original_three_to_one() {
    let original = grey_image(1, 1, &[100]);
    let cleaned = grey_image(1, 1, &[0]);
    let blended = blend_with_cleaned(&original, &cleaned);
    assert_eq!(blended.data, vec![75, 75, 75]);
    let bright = grey_image(1, 1, &[255]);
    let blended = blend_with_cleaned(&bright, &bright);
    assert_eq!(blended.data, vec![255, 255, 255]);
    let odd = blend_with_cleaned(&grey_image(1, 1, &[1]), &grey_image(1, 1, &[2]));
    assert_eq!(odd.data, vec![1, 1, 1]);
}

#[test]
fn median_filter_leaves_flat_colour_alone() {
    let image = RgbPixels::new(4, 3, [12_u8, 200, 77].repeat(12)).expect("twelve pixels");
    let cleaned = median_filter_3x3(&image);
    assert_eq!(cleaned.data, [12_u8, 200, 77].repeat(12));
}

#[test]
fn median_filter_only_uses_values_of_the_block() {
    let image = grey_image(2, 2, &[5, 9, 13, 250]);
    let cleaned = median_filter_3x3(&image);
    for value in cleaned.data {
        assert!([5_u8, 9, 13, 250].contains(&value));
    }
}
