//! Derivation of the managed file-system layout: the application data
//! directory under the user's home, the screenshots directory, the two
//! flat store files, and the second-precision timestamped screenshot
//! filename. Two captures within the same second share a name, so a
//! later save overwrites an earlier one; that limitation is accepted.
//! Paths are joined with `/`.
use vstd::prelude::*;
use vstd::string::StringExecFns;
use chrono::Datelike;
use chrono::Timelike;
use crate::jsontext::dec;

verus! {

/// Relies on `dirs::home_dir`: the user's home directory, if the
/// platform knows one. The result depends on the environment, so
/// nothing is promised of it.
#[verifier::external_body]
pub(crate) fn home_dir() -> Option<String> {
    dirs::home_dir().map(|p| p.to_string_lossy().to_string())
}

/// Relies on `chrono::Utc::now` and its `Datelike`/`Timelike`
/// accessors: month, day, hour, minute and second lie in their calendar
/// ranges (chrono represents a leap second in the nanosecond field, so
/// `second` stays below 60). The year depends on the clock, so nothing
/// is promised of it.
#[verifier::external_body]
pub(crate) fn now_utc_parts() -> (r: (i32, u32, u32, u32, u32, u32))
    ensures
        1 <= r.1 <= 12,
        1 <= r.2 <= 31,
        r.3 < 24,
        r.4 < 60,
        r.5 < 60,
{
    let now = chrono::Utc::now();
    (now.year(), now.month(), now.day(), now.hour(), now.minute(), now.second())
}

/// The application data directory under the given home directory.
pub fn get_app_data_dir(home: &str) -> (r: String)
    ensures
        r@ == home@ + "/InstantText OCR"@,
{
    let mut out = String::from_str(home);
    out.append("/InstantText OCR");
    out
}

/// The screenshots directory under the given data directory.
pub fn screenshots_dir(data_dir: &str) -> (r: String)
    ensures
        r@ == data_dir@ + "/screenshots"@,
{
    let mut out = String::from_str(data_dir);
    out.append("/screenshots");
    out
}

/// The default screenshots directory offered in fresh settings.
pub fn default_screenshots_dir(home: &str) -> (r: String)
    ensures
        r@ == home@ + "/InstantText OCR/Screenshots"@,
{
    let mut out = String::from_str(home);
    out.append("/InstantText OCR/Screenshots");
    out
}

/// The ledger file inside the data directory.
pub fn results_file_path(data_dir: &str) -> (r: String)
    ensures
        r@ == data_dir@ + "/ocr_results.json"@,
{
    let mut out = String::from_str(data_dir);
    out.append("/ocr_results.json");
    out
}

/// The settings file inside the data directory.
pub fn settings_file_path(data_dir: &str) -> (r: String)
    ensures
        r@ == data_dir@ + "/settings.json"@,
{
    let mut out = String::from_str(data_dir);
    out.append("/settings.json");
    out
}

/// A number padded with zeros to at least two digits.
pub open spec fn pad2(n: nat) -> Seq<char> {
    if n < 10 { seq!['0'] + dec(n) } else { dec(n) }
}

/// A number padded with zeros to at least four digits.
pub open spec fn pad4(n: nat) -> Seq<char> {
    if n < 10 { seq!['0', '0', '0'] + dec(n) }
    else if n < 100 { seq!['0', '0'] + dec(n) }
    else if n < 1000 { seq!['0'] + dec(n) }
    else { dec(n) }
}

/// The timestamped screenshot filename, to second precision. A year
/// before year zero carries a sign, as the reference calendar formats
/// it.
pub open spec fn filename_spec(y: int, mo: nat, d: nat, h: nat, mi: nat, s: nat) -> Seq<char> {
    "screenshot_"@ + (if y < 0 { seq!['-'] + pad4((-y) as nat) } else { pad4(y as nat) })
        + pad2(mo) + pad2(d) + "_"@ + pad2(h) + pad2(mi) + pad2(s) + ".png"@
}

fn append_pad2(out: &mut String, n: u32)
    ensures
        final(out)@ == old(out)@ + pad2(n as nat),
{
    if n < 10 {
        out.append("0");
        proof {
            reveal_strlit("0");
        }
    }
    crate::jsontext::append_dec(out, n as u64);
    proof {
        if n < 10 {
            assert(out@ =~= old(out)@ + pad2(n as nat));
        }
    }
}

fn append_pad4(out: &mut String, n: u32)
    ensures
        final(out)@ == old(out)@ + pad4(n as nat),
{
    if n < 10 {
        out.append("000");
        proof {
            reveal_strlit("000");
        }
    } else if n < 100 {
        out.append("00");
        proof {
            reveal_strlit("00");
        }
    } else if n < 1000 {
        out.append("0");
        proof {
            reveal_strlit("0");
        }
    }
    crate::jsontext::append_dec(out, n as u64);
    proof {
        assert(out@ =~= old(out)@ + pad4(n as nat));
    }
}

/// The screenshot filename for the given UTC timestamp parts.
pub fn screenshot_filename(y: i32, mo: u32, d: u32, h: u32, mi: u32, s: u32) -> (r: String)
    ensures
        r@ == filename_spec(y as int, mo as nat, d as nat, h as nat, mi as nat, s as nat),
{
    let mut out = String::new();
    out.append("screenshot_");
    if y < 0 {
        out.append("-");
        proof {
            reveal_strlit("-");
        }
        let mag: u32 = if y == i32::MIN { 0x8000_0000u32 } else { (-y) as u32 };
        proof {
            assert(mag as int == -(y as int));
        }
        append_pad4(&mut out, mag);
    } else {
        append_pad4(&mut out, y as u32);
    }
    append_pad2(&mut out, mo);
    append_pad2(&mut out, d);
    out.append("_");
    append_pad2(&mut out, h);
    append_pad2(&mut out, mi);
    append_pad2(&mut out, s);
    out.append(".png");
    proof {
        assert(out@ =~= filename_spec(y as int, mo as nat, d as nat, h as nat, mi as nat, s as nat));
    }
    out
}

/// The two directories the store relies on, data directory first,
/// screenshots directory second. The result is a pure function of the
/// home directory, so repeated bootstrap calls derive the same two
/// paths and create no duplicate entries; creating a directory that
/// already exists is a no-op at the file-system level.
pub fn directories_to_ensure(home: &str) -> (r: (String, String))
    ensures
        r.0@ == home@ + "/InstantText OCR"@,
        r.1@ == (home@ + "/InstantText OCR"@) + "/screenshots"@,
{
    let data = get_app_data_dir(home);
    let shots = screenshots_dir(data.as_str());
    (data, shots)
}

/// A filename for a capture taken now: `screenshot_` followed by the
/// current UTC timestamp to second precision and the `.png` extension.
pub fn timestamped_screenshot_name() -> (r: String)
    ensures
        exists|p: (i32, u32, u32, u32, u32, u32)|
            {
                &&& 1 <= p.1 <= 12
                &&& 1 <= p.2 <= 31
                &&& p.3 < 24 && p.4 < 60 && p.5 < 60
                &&& r@ == filename_spec(
                    p.0 as int, p.1 as nat, p.2 as nat, p.3 as nat, p.4 as nat, p.5 as nat)
            },
{
    let parts = now_utc_parts();
    let name = screenshot_filename(parts.0, parts.1, parts.2, parts.3, parts.4, parts.5);
    proof {
        assert({
            &&& 1 <= parts.1 <= 12
            &&& 1 <= parts.2 <= 31
            &&& parts.3 < 24 && parts.4 < 60 && parts.5 < 60
            &&& name@ == filename_spec(
                parts.0 as int, parts.1 as nat, parts.2 as nat, parts.3 as nat, parts.4 as nat,
                parts.5 as nat)
        });
    }
    name
}

} // verus!
