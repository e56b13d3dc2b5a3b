use image_tagger::fingerprint::{
    fingerprint, mean_luminance, FINGERPRINT_BYTES, THUMBNAIL_PIXELS, THUMBNAIL_SIDE,
};

fn ramp() -> Vec<u8> {
    (0..64u32).map(|k| (k * 4) as u8).collect()
}

#[test]
fn sizes_are_those_of_an_eight_by_eight_thumbnail() {
    assert_eq!(THUMBNAIL_SIDE, 8);
    assert_eq!(THUMBNAIL_PIXELS, 64);
    assert_eq!(FINGERPRINT_BYTES, 8);
}

#[test]
fn mean_is_rounded_down() {
    assert_eq!(mean_luminance(&vec![0u8; 64]), 0);
    assert_eq!(mean_luminance(&vec![255u8; 64]), 255);
    assert_eq!(mean_luminance(&ramp()), 126);
    let mut one_bright = vec![0u8; 64];
    one_bright[0] = 255;
    assert_eq!(mean_luminance(&one_bright), 3);
    let mut just_below = vec![1u8; 64];
    just_below[5] = 0;
    assert_eq!(mean_luminance(&just_below), 0);
}

#[test]
fn flat_thumbnail_has_no_bit_set() {
    assert_eq!(fingerprint(&vec![0u8; 64]), vec![0u8; 8]);
    assert_eq!(fingerprint(&vec![200u8; 64]), vec![0u8; 8]);
    assert_eq!(fingerprint(&vec![255u8; 64]), vec![0u8; 8]);
}

#[test]
fn ramp_sets_the_bits_of_the_brighter_half() {
    assert_eq!(fingerprint(&ramp()), vec![0, 0, 0, 0, 0xff, 0xff, 0xff, 0xff]);
}

#[test]
fn bit_i_of_byte_j_stands_for_pixel_eight_j_plus_i() {
    for j in 0..8usize {
        for i in 0..8usize {
            let mut luma = vec![0u8; 64];
            luma[8 * j + i] = 255;
            let mut expected = vec![0u8; 8];
            expected[j] = 1u8 << i;
            assert_eq!(fingerprint(&luma), expected);
        }
    }
}

#[test]
fn pixel_equal_to_the_mean_is_not_above_it() {
    // 32 pixels of 10 and 32 of 20: the mean is 15, and only the 20s are above it.
    let mut luma = vec![10u8; 64];
    for k in 32..64 {
        luma[k] = 20;
    }
    assert_eq!(fingerprint(&luma), vec![0, 0, 0, 0, 0xff, 0xff, 0xff, 0xff]);
    // All pixels equal the mean: none is above it.
    assert_eq!(fingerprint(&vec![15u8; 64]), vec![0u8; 8]);
}

#[test]
fn left_dark_right_bright_gives_the_high_nibble_in_every_row() {
    let mut luma = Vec::new();
    for _row in 0..8 {
        luma.extend_from_slice(&[0, 0, 0, 0, 255, 255, 255, 255]);
    }
    assert_eq!(fingerprint(&luma), vec![0xf0u8; 8]);
}

#[test]
fn thumbnails_with_the_same_mask_have_the_same_fingerprint() {
    let mut first = vec![10u8; 64];
    let mut second = vec![100u8; 64];
    for k in [1usize, 9, 17, 40, 63] {
        first[k] = 250;
        second[k] = 180;
    }
    assert_eq!(fingerprint(&first), fingerprint(&second));
    assert_eq!(fingerprint(&first), vec![2, 2, 2, 0, 0, 1, 0, 0x80]);
}

#[test]
fn fingerprint_is_the_same_on_every_call() {
    let luma = ramp();
    assert_eq!(fingerprint(&luma), fingerprint(&luma));
}
