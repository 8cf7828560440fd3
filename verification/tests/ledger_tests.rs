use instant_text_ocr::ledger::{
    encode_ledger, get_ocr_history, save_ocr_result, OcrResult,
};
use instant_text_ocr::StoreError;

fn result(id: &str, text: &str, ts: u64, path: &str, conf: u32) -> OcrResult {
    OcrResult {
        id: String::from(id),
        text: String::from(text),
        timestamp_ms: ts,
        screenshot_path: String::from(path),
        confidence_milli: conf,
    }
}

#[test]
fn absent_ledger_file_yields_empty_history() {
    let history = get_ocr_history(None).unwrap();
    assert_eq!(history.len(), 0);
}

#[test]
fn empty_ledger_encodes_as_brackets() {
    let text = encode_ledger(&Vec::new());
    assert_eq!(text, "[]");
    assert_eq!(get_ocr_history(Some(&text)).unwrap().len(), 0);
}

#[test]
fn single_record_has_canonical_form() {
    let text = save_ocr_result(None, result("r1", "hello", 1700000000123, "/shots/a.png", 953));
    assert_eq!(
        text,
        "[{\"id\":\"r1\",\"text\":\"hello\",\"timestamp_ms\":1700000000123,\
         \"screenshot_path\":\"/shots/a.png\",\"confidence_milli\":953}]"
    );
}

#[test]
fn three_appends_then_load_keep_order() {
    let r1 = result("a", "first", 1, "/p/1.png", 100);
    let r2 = result("b", "second", 2, "/p/2.png", 200);
    let r3 = result("c", "third", 3, "/p/3.png", 300);
    let c1 = save_ocr_result(None, r1.clone());
    let c2 = save_ocr_result(Some(&c1), r2.clone());
    let c3 = save_ocr_result(Some(&c2), r3.clone());
    let history = get_ocr_history(Some(&c3)).unwrap();
    assert_eq!(history, vec![r1, r2, r3]);
}

#[test]
fn append_swallows_malformed_existing_file() {
    let r = result("x", "salvaged", 9, "/p/x.png", 1);
    let text = save_ocr_result(Some("{{{ not a ledger"), r.clone());
    let history = get_ocr_history(Some(&text)).unwrap();
    assert_eq!(history, vec![r]);
}

#[test]
fn malformed_ledger_fails_to_load() {
    assert_eq!(get_ocr_history(Some("{{{ not a ledger")), Err(StoreError::Parse));
}

#[test]
fn ledger_with_trailing_garbage_fails_to_load() {
    let mut text = save_ocr_result(None, result("a", "t", 1, "/p", 1));
    text.push('x');
    assert_eq!(get_ocr_history(Some(&text)), Err(StoreError::Parse));
}

#[test]
fn record_round_trip_with_escaped_text() {
    let r = result(
        "id-\"quoted\"",
        "line one\nline two\twith \\ backslash and \u{2} ctl",
        42,
        "/dir with space/\u{e9}.png",
        1000,
    );
    let text = save_ocr_result(None, r.clone());
    let history = get_ocr_history(Some(&text)).unwrap();
    assert_eq!(history, vec![r]);
}

#[test]
fn record_round_trip_with_extreme_numbers() {
    let r = result("m", "", u64::MAX, "", u32::MAX);
    let z = result("z", "zero", 0, "/p", 0);
    let c1 = save_ocr_result(None, r.clone());
    let c2 = save_ocr_result(Some(&c1), z.clone());
    let history = get_ocr_history(Some(&c2)).unwrap();
    assert_eq!(history, vec![r, z]);
}

#[test]
fn non_canonical_number_fails_to_load() {
    let text = save_ocr_result(None, result("a", "t", 1, "/p", 7));
    let tampered = text.replace("\"timestamp_ms\":1", "\"timestamp_ms\":01");
    assert_eq!(get_ocr_history(Some(&tampered)), Err(StoreError::Parse));
}

#[test]
fn concurrent_append_race_documented_and_mitigated() {
    // Two appends race against the same empty ledger. Each computes its
    // rewrite from the state it read, and a last-writer-wins file store
    // keeps only the later rewrite: one result is lost.
    let ra = result("a", "from task a", 1, "/p/a.png", 10);
    let rb = result("b", "from task b", 2, "/p/b.png", 20);
    let write_a = save_ocr_result(None, ra.clone());
    let write_b = save_ocr_result(None, rb.clone());
    let lost_update = get_ocr_history(Some(&write_b)).unwrap();
    assert_eq!(lost_update, vec![rb.clone()]);
    drop(write_a);
    // The mitigation: appends are pure rewrites, so a single writer that
    // serializes them — each starting from the previous rewrite — loses
    // nothing.
    let first = save_ocr_result(None, ra.clone());
    let second = save_ocr_result(Some(&first), rb.clone());
    let serialized = get_ocr_history(Some(&second)).unwrap();
    assert_eq!(serialized, vec![ra, rb]);
}
