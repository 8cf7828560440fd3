use instant_text_ocr::paths::{
    default_screenshots_dir, directories_to_ensure, get_app_data_dir, results_file_path,
    screenshot_filename, screenshots_dir, settings_file_path, timestamped_screenshot_name,
};

#[test]
fn data_directory_layout_is_fixed() {
    let data = get_app_data_dir("/home/u");
    assert_eq!(data, "/home/u/InstantText OCR");
    assert_eq!(screenshots_dir(&data), "/home/u/InstantText OCR/screenshots");
    assert_eq!(results_file_path(&data), "/home/u/InstantText OCR/ocr_results.json");
    assert_eq!(settings_file_path(&data), "/home/u/InstantText OCR/settings.json");
    assert_eq!(default_screenshots_dir("/home/u"), "/home/u/InstantText OCR/Screenshots");
}

#[test]
fn bootstrap_paths_are_deterministic() {
    let first = directories_to_ensure("/home/u");
    let second = directories_to_ensure("/home/u");
    assert_eq!(first, second);
    assert_eq!(first.0, "/home/u/InstantText OCR");
    assert_eq!(first.1, "/home/u/InstantText OCR/screenshots");
}

#[test]
fn screenshot_filename_formats_to_second_precision() {
    let name = screenshot_filename(2024, 3, 7, 9, 5, 30);
    assert_eq!(name, "screenshot_20240307_090530.png");
}

#[test]
fn screenshot_filename_pads_small_fields() {
    let name = screenshot_filename(999, 12, 31, 23, 59, 59);
    assert_eq!(name, "screenshot_09991231_235959.png");
    let name2 = screenshot_filename(7, 1, 2, 0, 0, 1);
    assert_eq!(name2, "screenshot_00070102_000001.png");
}

#[test]
fn screenshot_filename_keeps_wide_and_signed_years() {
    assert_eq!(screenshot_filename(10000, 1, 1, 0, 0, 0), "screenshot_100000101_000000.png");
    assert_eq!(screenshot_filename(-1, 1, 1, 0, 0, 0), "screenshot_-00010101_000000.png");
}

#[test]
fn timestamped_name_has_expected_shape() {
    let name = timestamped_screenshot_name();
    assert!(name.starts_with("screenshot_"));
    assert!(name.ends_with(".png"));
    // Year, month, day, separator, and the time: 8 + 1 + 6 digits for
    // any contemporary clock.
    assert_eq!(name.len(), "screenshot_".len() + 8 + 1 + 6 + ".png".len());
}

#[test]
fn greeting_mentions_the_name() {
    assert_eq!(
        instant_text_ocr::greet("Ada"),
        "Hello, Ada! Welcome to InstantText OCR!"
    );
}
