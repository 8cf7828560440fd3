use instant_text_ocr::settings::{get_settings, save_settings, AppSettings};
use instant_text_ocr::StoreError;

#[test]
fn absent_settings_file_yields_defaults() {
    let settings = get_settings(None, "/home/someone").unwrap();
    assert_eq!(settings.global_hotkey, "ctrl+shift+o");
    assert!(settings.auto_copy_to_clipboard);
    assert!(settings.save_screenshots);
    assert_eq!(settings.screenshots_dir, "/home/someone/InstantText OCR/Screenshots");
    assert!(!settings.autostart);
}

#[test]
fn settings_save_has_canonical_form() {
    let settings = AppSettings {
        global_hotkey: String::from("ctrl+shift+o"),
        auto_copy_to_clipboard: true,
        save_screenshots: false,
        screenshots_dir: String::from("/tmp/shots"),
        autostart: true,
    };
    let text = save_settings(&settings);
    assert_eq!(
        text,
        "{\"global_hotkey\":\"ctrl+shift+o\",\"auto_copy_to_clipboard\":true,\
         \"save_screenshots\":false,\"screenshots_dir\":\"/tmp/shots\",\"autostart\":true}"
    );
}

#[test]
fn settings_round_trip_plain() {
    let settings = AppSettings {
        global_hotkey: String::from("alt+x"),
        auto_copy_to_clipboard: false,
        save_screenshots: true,
        screenshots_dir: String::from("/data/captures"),
        autostart: false,
    };
    let text = save_settings(&settings);
    let back = get_settings(Some(&text), "/ignored").unwrap();
    assert_eq!(back, settings);
}

#[test]
fn settings_round_trip_with_escaped_characters() {
    let settings = AppSettings {
        global_hotkey: String::from("a\"b\\c"),
        auto_copy_to_clipboard: true,
        save_screenshots: true,
        screenshots_dir: String::from("dir with\nnewline\ttab\rret \u{1}ctl \u{1F} unicode \u{e9}"),
        autostart: false,
    };
    let text = save_settings(&settings);
    let back = get_settings(Some(&text), "/ignored").unwrap();
    assert_eq!(back, settings);
}

#[test]
fn settings_round_trip_empty_strings() {
    let settings = AppSettings {
        global_hotkey: String::new(),
        auto_copy_to_clipboard: false,
        save_screenshots: false,
        screenshots_dir: String::new(),
        autostart: true,
    };
    let text = save_settings(&settings);
    let back = get_settings(Some(&text), "/ignored").unwrap();
    assert_eq!(back, settings);
}

#[test]
fn malformed_settings_file_fails_to_parse() {
    assert_eq!(get_settings(Some("not a settings file"), "/h"), Err(StoreError::Parse));
}

#[test]
fn settings_with_trailing_garbage_fail_to_parse() {
    let settings = get_settings(None, "/h").unwrap();
    let mut text = save_settings(&settings);
    text.push(' ');
    assert_eq!(get_settings(Some(&text), "/h"), Err(StoreError::Parse));
}

#[test]
fn settings_escaping_changes_the_written_text() {
    // The escaper must not hand its input through unchanged: a quote in
    // a field arrives escaped in the file.
    let settings = AppSettings {
        global_hotkey: String::from("\""),
        auto_copy_to_clipboard: true,
        save_screenshots: true,
        screenshots_dir: String::from("\n"),
        autostart: false,
    };
    let text = save_settings(&settings);
    assert!(text.contains("\\\""));
    assert!(text.contains("\\n"));
    assert!(!text.contains('\n'));
}

#[test]
fn platform_default_settings_have_fixed_fields() {
    let settings = AppSettings::default();
    assert_eq!(settings.global_hotkey, "ctrl+shift+o");
    assert!(settings.auto_copy_to_clipboard);
    assert!(settings.save_screenshots);
    assert!(!settings.autostart);
    assert!(settings.screenshots_dir.ends_with("/InstantText OCR/Screenshots"));
}
