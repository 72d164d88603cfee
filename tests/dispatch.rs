use rsimg::dispatch::{file_extension, is_image_file, scale_side, target_dimensions};
use image::imageops::FilterType;
use rsimg::imaging::to_filter_type;
use rsimg::number::Percentage;
use rsimg::options::{FilterKind, ResizeMode};

#[test]
fn image_names() {
    assert!(is_image_file("a.png"));
    assert!(is_image_file("c.jpg"));
    assert!(is_image_file("photo.backup.jpeg"));
    assert!(!is_image_file("b.txt"));
    assert!(!is_image_file("A.PNG"));
    assert!(!is_image_file(".png"));
    assert!(!is_image_file("png"));
    assert!(!is_image_file("a.png.txt"));
    assert!(is_image_file("..png"));
}

#[test]
fn extensions_match_std_path() {
    for name in ["a.png", "b", ".hidden", "..", ".", "a.", "..png", "x.tar.gz", "a..b"] {
        let expected = std::path::Path::new(name)
            .extension()
            .map(|e| e.to_str().unwrap().to_string());
        assert_eq!(file_extension(name), expected, "{name}");
    }
}

#[test]
fn scaled_sides() {
    let half = Percentage { digits: 50, frac_len: 0 };
    assert_eq!(scale_side(101, half), 50);
    assert_eq!(scale_side(0, half), 0);
    let third = Percentage { digits: 3333, frac_len: 2 };
    assert_eq!(scale_side(300, third), 99);
    let big = Percentage { digits: 9999999999999999999, frac_len: 0 };
    assert_eq!(scale_side(u32::MAX, big), u32::MAX);
    let tiny = Percentage { digits: 1, frac_len: 4000000000 };
    assert_eq!(scale_side(u32::MAX, tiny), 0);
    let double = Percentage { digits: 2000, frac_len: 1 };
    assert_eq!(scale_side(7, double), 14);
}

#[test]
fn target_sizes() {
    assert_eq!(
        target_dimensions(ResizeMode::AbsoluteSize { width: 10, height: 20 }, 640, 480),
        (10, 20)
    );
    assert_eq!(
        target_dimensions(
            ResizeMode::ScaleFactor { percent: Percentage { digits: 25, frac_len: 0 } },
            640,
            481
        ),
        (160, 120)
    );
}

#[test]
fn filter_kinds_map_to_image_filters() {
    assert_eq!(to_filter_type(FilterKind::Nearest), FilterType::Nearest);
    assert_eq!(to_filter_type(FilterKind::Linear), FilterType::Triangle);
    assert_eq!(to_filter_type(FilterKind::Cubic), FilterType::CatmullRom);
    assert_eq!(to_filter_type(FilterKind::Gaussian), FilterType::Gaussian);
    assert_eq!(to_filter_type(FilterKind::Lanczos3), FilterType::Lanczos3);
}
