use image::imageops::FilterType;
use image::{Bgra, DynamicImage, ImageBuffer, Luma, Rgb, Rgba};
use wallpaper_processor::resize::{
    fits, img_resize, is_exact, is_resizable, try_img_resize, MAX_BOTH, MAX_EITHER,
};

fn rgb(width: u32, height: u32, bytes: Vec<u8>) -> DynamicImage {
    let buffer: ImageBuffer<Rgb<u8>, Vec<u8>> = ImageBuffer::from_raw(width, height, bytes).unwrap();
    DynamicImage::ImageRgb8(buffer)
}

#[test]
fn an_image_of_the_right_size_only_changes_its_layout() {
    let img = rgb(2, 1, vec![1, 2, 3, 4, 5, 6]);
    assert_eq!(
        img_resize(img, 2, 1, FilterType::Lanczos3),
        vec![3, 2, 1, 255, 6, 5, 4, 255]
    );
}

#[test]
fn alpha_and_gray_are_kept() {
    let buffer: ImageBuffer<Rgba<u8>, Vec<u8>> = ImageBuffer::from_raw(1, 1, vec![9, 8, 7, 6]).unwrap();
    assert_eq!(
        img_resize(DynamicImage::ImageRgba8(buffer), 1, 1, FilterType::Nearest),
        vec![7, 8, 9, 6]
    );
    let buffer: ImageBuffer<Luma<u16>, Vec<u16>> = ImageBuffer::from_raw(1, 1, vec![0x4200]).unwrap();
    let gray = img_resize(DynamicImage::ImageLuma16(buffer), 1, 1, FilterType::Nearest);
    assert_eq!(gray.len(), 4);
    assert_eq!(gray[0], gray[1]);
    assert_eq!(gray[1], gray[2]);
    assert_eq!(gray[3], 255);
}

#[test]
fn a_small_image_is_scaled_up() {
    let img = rgb(1, 1, vec![10, 20, 30]);
    assert_eq!(
        img_resize(img, 2, 2, FilterType::Nearest),
        vec![30, 20, 10, 255, 30, 20, 10, 255, 30, 20, 10, 255, 30, 20, 10, 255]
    );
}

#[test]
fn a_wide_image_loses_its_sides() {
    let img = rgb(4, 1, vec![1, 1, 1, 2, 2, 2, 3, 3, 3, 4, 4, 4]);
    assert_eq!(img_resize(img, 1, 1, FilterType::Nearest), vec![2, 2, 2, 255]);
    let img = rgb(1, 4, vec![1, 1, 1, 2, 2, 2, 3, 3, 3, 4, 4, 4]);
    assert_eq!(img_resize(img, 1, 1, FilterType::Nearest), vec![2, 2, 2, 255]);
}

#[test]
fn every_filter_gives_the_size_asked_for() {
    let filters = [
        FilterType::Nearest,
        FilterType::Triangle,
        FilterType::CatmullRom,
        FilterType::Gaussian,
        FilterType::Lanczos3,
    ];
    for filter in filters {
        for (width, height) in [(1, 7), (7, 1), (5, 5), (13, 4), (0, 3), (3, 0), (0, 0)] {
            let img = rgb(3, 2, vec![128; 18]);
            let bytes = img_resize(img, width, height, filter);
            assert_eq!(bytes.len(), (width * height * 4) as usize);
            for pixel in bytes.chunks_exact(4) {
                assert_eq!(pixel, &[128, 128, 128, 255]);
            }
        }
    }
}

#[test]
fn bgra_bytes_are_handed_over_as_they_are() {
    let buffer: ImageBuffer<Bgra<u8>, Vec<u8>> =
        ImageBuffer::from_raw(1, 1, vec![1, 2, 3, 4, 5, 6]).unwrap();
    assert_eq!(
        img_resize(DynamicImage::ImageBgra8(buffer), 1, 1, FilterType::Nearest),
        vec![1, 2, 3, 4, 5, 6]
    );
}

#[test]
fn images_that_cannot_fill_are_refused() {
    assert!(try_img_resize(DynamicImage::new_rgb8(0, 5), 2, 2, FilterType::Nearest).is_none());
    assert!(try_img_resize(DynamicImage::new_rgb8(5, 0), 2, 2, FilterType::Nearest).is_none());
    assert_eq!(
        try_img_resize(DynamicImage::new_rgb8(0, 5), 0, 5, FilterType::Nearest),
        Some(Vec::new())
    );
    assert_eq!(
        try_img_resize(rgb(1, 1, vec![1, 2, 3]), 1, 2, FilterType::Triangle),
        Some(vec![3, 2, 1, 255, 3, 2, 1, 255])
    );
}

#[test]
fn sizes_are_judged_by_what_they_scale_to() {
    assert!(is_resizable((2097153, 1000), 3, 1920, 1080, false));
    assert!(is_resizable((u32::MAX, 2000), 3, 1920, 1, false));
    assert!(is_resizable((3_000_000, 1), 3, 5_000_000, 1, false));
    assert!(is_resizable((MAX_EITHER + 1, 1), 3, 1, 1, false));
    assert!(is_resizable((MAX_EITHER, 1), 3, 1, 3, false));
    assert!(is_resizable((MAX_EITHER + 1, 2), 3, 1, 1, false));
    assert!(is_resizable((MAX_BOTH, 1), 3, 1, 1, false));
    assert!(!is_resizable((MAX_BOTH + 1, 1), 3, 1, 1, false));
    assert!(!is_resizable((1, MAX_BOTH + 1), 3, 1, 1, false));
    assert!(!is_resizable((MAX_EITHER + 1, 1), 3, 1, 2, false));
    assert!(!is_resizable((1, MAX_EITHER + 1), 3, 2, 1, false));
    assert!(is_resizable((MAX_EITHER + 1, 1), 3, 1, 2, true));
    assert!(is_resizable((1, MAX_BOTH + 1), 3, 1, 1, true));
    assert!(!is_resizable((4, u32::MAX), 3, 5, 1, true));
    assert!(is_resizable((1920, 1080), 3, 3840, 2160, false));
    assert!(!is_resizable((0, 0), 3, 1, 1, true));
    assert!(is_resizable((0, 0), 3, 0, 0, false));
}

#[test]
fn sizes_are_judged_by_the_bytes_of_their_pixels() {
    assert!(is_resizable((1, 1), 1, 17000, 16000, false));
    let side: u32 = if usize::BITS == 64 { 1 << 30 } else { 1 << 14 };
    assert!(is_resizable((1, 1), 7, side, side, false));
    assert!(!is_resizable((1, 1), 8, side, side, false));
    assert!(is_resizable((side, side), 8, side, side, false));
}

#[test]
fn rows_have_to_be_addressable() {
    let fits_usize = usize::BITS == 64;
    assert_eq!(is_resizable((0x4000_0000, 0), 1, 0x4000_0000, 0, false), fits_usize);
    assert!(is_resizable((0x3fff_ffff, 0), 1, 0x3fff_ffff, 0, false));
    let img = DynamicImage::new_luma8(0x4000_0000, 0);
    let bytes = try_img_resize(img, 0x4000_0000, 0, FilterType::Triangle);
    assert_eq!(bytes.is_some(), fits_usize);
}

#[test]
fn the_nearest_pixel_is_found_at_any_length() {
    let img = DynamicImage::new_luma8(MAX_BOTH + 1, 1);
    let filters = [
        (FilterType::Nearest, true),
        (FilterType::Triangle, false),
        (FilterType::CatmullRom, false),
        (FilterType::Gaussian, false),
        (FilterType::Lanczos3, false),
    ];
    for (filter, fitting) in filters {
        assert_eq!(fits(&img, 1, 1, filter), fitting);
    }
    assert_eq!(try_img_resize(img, 1, 1, FilterType::Nearest), Some(vec![0, 0, 0, 255]));
}

#[test]
fn a_long_side_keeps_its_length() {
    let img = DynamicImage::new_luma8(MAX_EITHER + 1, 1);
    assert_eq!(img_resize(img, 1, 1, FilterType::Triangle), vec![0, 0, 0, 255]);
}

#[test]
fn an_image_fits_if_its_size_does() {
    assert!(fits(&DynamicImage::new_rgb8(3, 2), 7, 5, FilterType::Gaussian));
    assert!(!fits(&DynamicImage::new_rgb8(0, 2), 7, 5, FilterType::Gaussian));
    assert!(fits(&DynamicImage::new_rgb8(0, 2), 0, 2, FilterType::Gaussian));
}

#[test]
fn a_long_side_is_scaled_down() {
    let img = DynamicImage::new_luma8(2097153, 1);
    assert_eq!(
        img_resize(img, 3, 1, FilterType::Nearest),
        vec![0, 0, 0, 255, 0, 0, 0, 255, 0, 0, 0, 255]
    );
}

#[test]
fn only_a_buffer_that_is_too_long_is_not_exact() {
    assert!(is_exact(&rgb(2, 1, vec![1, 2, 3, 4, 5, 6])));
    assert!(is_exact(&DynamicImage::new_bgra8(3, 2)));
    for extra in 1..6 {
        let buffer: ImageBuffer<Bgra<u8>, Vec<u8>> =
            ImageBuffer::from_raw(1, 1, vec![0; 4 + extra]).unwrap();
        assert!(!is_exact(&DynamicImage::ImageBgra8(buffer)));
    }
    let buffer: ImageBuffer<Rgb<u8>, Vec<u8>> = ImageBuffer::from_raw(1, 1, vec![0; 9]).unwrap();
    let img = DynamicImage::ImageRgb8(buffer);
    assert!(is_exact(&img));
    assert_eq!(img_resize(img, 1, 1, FilterType::Nearest), vec![0, 0, 0, 255]);
}
