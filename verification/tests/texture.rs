use fruits::texture::{mip_level_count, rgba_pixels};

#[test]
fn rgba_source_is_kept() {
    let data: Vec<u8> = (0..16).collect();
    assert_eq!(rgba_pixels([2, 2], &data), data);
}

#[test]
fn rgb_source_is_padded_with_opaque_alpha() {
    let data = [1u8, 2, 3, 4, 5, 6];
    assert_eq!(rgba_pixels([2, 1], &data), vec![1, 2, 3, 255, 4, 5, 6, 255]);
}

#[test]
fn two_channel_source_keeps_zero_blue() {
    let data = [9u8, 8, 7, 6];
    assert_eq!(rgba_pixels([1, 2], &data), vec![9, 8, 0, 255, 7, 6, 0, 255]);
}

#[test]
fn single_channel_source_reads_red() {
    let data = [10u8, 20, 30];
    assert_eq!(rgba_pixels([3, 1], &data), vec![10, 0, 0, 255, 20, 0, 0, 255, 30, 0, 0, 255]);
}

#[test]
fn zero_dimensions_count_as_one_and_short_data_is_black() {
    assert_eq!(rgba_pixels([0, 0], &[]), vec![0, 0, 0, 255]);
    assert_eq!(rgba_pixels([0, 2], &[5u8]), vec![0, 0, 0, 255, 0, 0, 0, 255]);
}

#[test]
fn mip_levels_follow_the_larger_side() {
    assert_eq!(mip_level_count([256, 16], true), 9);
    assert_eq!(mip_level_count([3, 5], true), 3);
    assert_eq!(mip_level_count([0, 0], true), 1);
    assert_eq!(mip_level_count([u32::MAX, 1], true), 32);
    assert_eq!(mip_level_count([256, 256], false), 1);
}
