//! The settings store: a single structured record, overwritten wholesale
//! on every save. Loading an absent file yields the computed defaults;
//! loading a present but malformed file fails. The on-disk text is the
//! canonical form that `save_settings` writes, and parsing is proved to
//! invert writing.
use vstd::prelude::*;
use vstd::string::StringExecFns;
use crate::StoreError;
use crate::jsontext::{
    esc, bool_lit, scan_str, scan_bool, starts_with,
    append_quoted, append_bool, match_lit, scan_string, scan_boolean,
    lemma_scan_esc, lemma_scan_bool, lemma_starts_with_prefix, lemma_lit_at_skip,
};

verus! {

/// The user-facing configuration record.
#[derive(Clone, Debug, PartialEq, Eq)]
pub struct AppSettings {
    pub global_hotkey: String,
    pub auto_copy_to_clipboard: bool,
    pub save_screenshots: bool,
    pub screenshots_dir: String,
    pub autostart: bool,
}

impl View for AppSettings {
    type V = (Seq<char>, bool, bool, Seq<char>, bool);

    open spec fn view(&self) -> (Seq<char>, bool, bool, Seq<char>, bool) {
        (self.global_hotkey@, self.auto_copy_to_clipboard, self.save_screenshots,
            self.screenshots_dir@, self.autostart)
    }
}

/// The canonical written form of a settings record, grouped as the
/// parser consumes it.
pub open spec fn enc_settings(v: (Seq<char>, bool, bool, Seq<char>, bool)) -> Seq<char> {
    "{\"global_hotkey\":\""@ + (esc(v.0) + (seq!['"']
        + (",\"auto_copy_to_clipboard\":"@ + (bool_lit(v.1)
        + (",\"save_screenshots\":"@ + (bool_lit(v.2)
        + (",\"screenshots_dir\":\""@ + (esc(v.3) + (seq!['"']
        + (",\"autostart\":"@ + (bool_lit(v.4)
        + "}"@)))))))))))
}

/// Strict parse of a whole settings document: accepts exactly the text
/// `enc_settings` produces.
pub open spec fn parse_settings(s: Seq<char>) -> Option<(Seq<char>, bool, bool, Seq<char>, bool)> {
    if !starts_with(s, "{\"global_hotkey\":\""@) {
        None
    } else {
        let s1 = s.skip("{\"global_hotkey\":\""@.len() as int);
        match scan_str(s1) {
            None => None,
            Some((hot, k1)) => {
                let s2 = s1.skip(k1);
                if !starts_with(s2, ",\"auto_copy_to_clipboard\":"@) {
                    None
                } else {
                    let s3 = s2.skip(",\"auto_copy_to_clipboard\":"@.len() as int);
                    match scan_bool(s3) {
                        None => None,
                        Some((copy, k3)) => {
                            let s4 = s3.skip(k3);
                            if !starts_with(s4, ",\"save_screenshots\":"@) {
                                None
                            } else {
                                let s5 = s4.skip(",\"save_screenshots\":"@.len() as int);
                                match scan_bool(s5) {
                                    None => None,
                                    Some((save, k5)) => {
                                        let s6 = s5.skip(k5);
                                        if !starts_with(s6, ",\"screenshots_dir\":\""@) {
                                            None
                                        } else {
                                            let s7 = s6.skip(",\"screenshots_dir\":\""@.len() as int);
                                            match scan_str(s7) {
                                                None => None,
                                                Some((dir, k7)) => {
                                                    let s8 = s7.skip(k7);
                                                    if !starts_with(s8, ",\"autostart\":"@) {
                                                        None
                                                    } else {
                                                        let s9 = s8.skip(",\"autostart\":"@.len() as int);
                                                        match scan_bool(s9) {
                                                            None => None,
                                                            Some((auto, k9)) => {
                                                                if s9.skip(k9) == "}"@ {
                                                                    Some((hot, copy, save, dir, auto))
                                                                } else {
                                                                    None
                                                                }
                                                            },
                                                        }
                                                    }
                                                },
                                            }
                                        }
                                    },
                                }
                            }
                        },
                    }
                }
            },
        }
    }
}

/// Serializes a settings record to its canonical written form.
#[verifier::rlimit(100)]
pub fn save_settings(settings: &AppSettings) -> (r: String)
    ensures
        r@ == enc_settings(settings@),
{
    let mut out = String::new();
    out.append("{\"global_hotkey\":");
    append_quoted(&mut out, settings.global_hotkey.as_str());
    out.append(",\"auto_copy_to_clipboard\":");
    append_bool(&mut out, settings.auto_copy_to_clipboard);
    out.append(",\"save_screenshots\":");
    append_bool(&mut out, settings.save_screenshots);
    out.append(",\"screenshots_dir\":");
    append_quoted(&mut out, settings.screenshots_dir.as_str());
    out.append(",\"autostart\":");
    append_bool(&mut out, settings.autostart);
    out.append("}");
    proof {
        reveal_strlit("{\"global_hotkey\":");
        reveal_strlit("{\"global_hotkey\":\"");
        reveal_strlit(",\"screenshots_dir\":");
        reveal_strlit(",\"screenshots_dir\":\"");
        assert(out@ =~= enc_settings(settings@));
    }
    out
}

/// Parses a whole settings document. Agrees exactly with
/// `parse_settings`.
#[verifier::rlimit(100)]
pub fn parse_settings_text(s: &str) -> (r: Option<AppSettings>)
    ensures
        match r {
            Some(st) => parse_settings(s@) == Some(st@),
            None => parse_settings(s@) is None,
        },
{
    let n = s.unicode_len();
    proof {
        lemma_lit_at_skip(s@, 0, "{\"global_hotkey\":\""@);
        assert(s@.skip(0) =~= s@);
    }
    let i1 = match match_lit(s, 0, "{\"global_hotkey\":\"") {
        None => { return None; },
        Some(i) => i,
    };
    let ghost s1 = s@.skip("{\"global_hotkey\":\""@.len() as int);
    proof {
        assert(s1 =~= s@.skip(i1 as int));
    }
    let (hot, i2) = match scan_string(s, i1) {
        None => { return None; },
        Some(p) => p,
    };
    let ghost s2 = s1.skip(i2 - i1);
    proof {
        assert(s2 =~= s@.skip(i2 as int));
        lemma_lit_at_skip(s@, i2 as int, ",\"auto_copy_to_clipboard\":"@);
    }
    let i3 = match match_lit(s, i2, ",\"auto_copy_to_clipboard\":") {
        None => { return None; },
        Some(i) => i,
    };
    let ghost s3 = s2.skip(",\"auto_copy_to_clipboard\":"@.len() as int);
    proof {
        assert(s3 =~= s@.skip(i3 as int));
    }
    let (copy, i4) = match scan_boolean(s, i3) {
        None => { return None; },
        Some(p) => p,
    };
    let ghost s4 = s3.skip(i4 - i3);
    proof {
        assert(s4 =~= s@.skip(i4 as int));
        lemma_lit_at_skip(s@, i4 as int, ",\"save_screenshots\":"@);
    }
    let i5 = match match_lit(s, i4, ",\"save_screenshots\":") {
        None => { return None; },
        Some(i) => i,
    };
    let ghost s5 = s4.skip(",\"save_screenshots\":"@.len() as int);
    proof {
        assert(s5 =~= s@.skip(i5 as int));
    }
    let (save, i6) = match scan_boolean(s, i5) {
        None => { return None; },
        Some(p) => p,
    };
    let ghost s6 = s5.skip(i6 - i5);
    proof {
        assert(s6 =~= s@.skip(i6 as int));
        lemma_lit_at_skip(s@, i6 as int, ",\"screenshots_dir\":\""@);
    }
    let i7 = match match_lit(s, i6, ",\"screenshots_dir\":\"") {
        None => { return None; },
        Some(i) => i,
    };
    let ghost s7 = s6.skip(",\"screenshots_dir\":\""@.len() as int);
    proof {
        assert(s7 =~= s@.skip(i7 as int));
    }
    let (dir, i8) = match scan_string(s, i7) {
        None => { return None; },
        Some(p) => p,
    };
    let ghost s8 = s7.skip(i8 - i7);
    proof {
        assert(s8 =~= s@.skip(i8 as int));
        lemma_lit_at_skip(s@, i8 as int, ",\"autostart\":"@);
    }
    let i9 = match match_lit(s, i8, ",\"autostart\":") {
        None => { return None; },
        Some(i) => i,
    };
    let ghost s9 = s8.skip(",\"autostart\":"@.len() as int);
    proof {
        assert(s9 =~= s@.skip(i9 as int));
    }
    let (auto, i10) = match scan_boolean(s, i9) {
        None => { return None; },
        Some(p) => p,
    };
    let ghost s10 = s9.skip(i10 - i9);
    proof {
        assert(s10 =~= s@.skip(i10 as int));
        reveal_strlit("}");
    }
    if i10 < n && i10 + 1 == n && s.get_char(i10) == '}' {
        proof {
            assert(s10 =~= "}"@);
        }
        Some(AppSettings {
            global_hotkey: hot,
            auto_copy_to_clipboard: copy,
            save_screenshots: save,
            screenshots_dir: dir,
            autostart: auto,
        })
    } else {
        proof {
            assert(s10.len() == n - i10);
            if s10 == "}"@ {
                assert(s10.len() == 1);
                assert(s10[0] == '}');
                assert(s@[i10 as int] == '}');
            }
        }
        None
    }
}

/// Back half of the round-trip argument: from the text that follows
/// the third field, parsing recovers the directory and autostart
/// fields and consumes everything up to the closing brace.
#[verifier::rlimit(100)]
proof fn lemma_settings_rt_back(v3: Seq<char>, v4: bool, s6: Seq<char>)
    requires
        s6 == ",\"screenshots_dir\":\""@ + (esc(v3) + (seq!['"'] + (",\"autostart\":"@ + (bool_lit(v4) + "}"@)))),
    ensures
        starts_with(s6, ",\"screenshots_dir\":\""@),
        scan_str(s6.skip(",\"screenshots_dir\":\""@.len() as int)) == Some((v3, esc(v3).len() as int + 1)),
        starts_with(
            s6.skip(",\"screenshots_dir\":\""@.len() as int).skip(esc(v3).len() as int + 1),
            ",\"autostart\":"@),
        scan_bool(
            s6.skip(",\"screenshots_dir\":\""@.len() as int).skip(esc(v3).len() as int + 1)
                .skip(",\"autostart\":"@.len() as int)) == Some((v4, bool_lit(v4).len() as int)),
        s6.skip(",\"screenshots_dir\":\""@.len() as int).skip(esc(v3).len() as int + 1)
            .skip(",\"autostart\":"@.len() as int).skip(bool_lit(v4).len() as int) == "}"@,
{
    let q = seq!['"'];
    let r9 = "}"@;
    let r8 = bool_lit(v4) + r9;
    let r7 = ",\"autostart\":"@ + r8;
    let r6 = esc(v3) + (q + r7);
    lemma_starts_with_prefix(",\"screenshots_dir\":\""@, r6);
    let s7 = s6.skip(",\"screenshots_dir\":\""@.len() as int);
    assert(s7 == r6);
    assert(r6 =~= esc(v3) + q + r7);
    lemma_scan_esc(v3, r7);
    let k7 = esc(v3).len() as int + 1;
    assert(scan_str(s7) == Some((v3, k7)));
    let s8 = s7.skip(k7);
    assert(s8 =~= r7);
    lemma_starts_with_prefix(",\"autostart\":"@, r8);
    let s9 = s8.skip(",\"autostart\":"@.len() as int);
    assert(s9 == r8);
    lemma_scan_bool(v4, r9);
    let k9 = bool_lit(v4).len() as int;
    let s10 = s9.skip(k9);
    assert(s10 =~= r9);
}

/// Parsing the text `enc_settings` wrote recovers the record: the
/// settings store round-trips for every field combination.
#[verifier::rlimit(100)]
pub proof fn lemma_settings_round_trip(v: (Seq<char>, bool, bool, Seq<char>, bool))
    ensures
        parse_settings(enc_settings(v)) == Some(v),
{
    let s = enc_settings(v);
    let q = seq!['"'];
    let r9 = "}"@;
    let r8 = bool_lit(v.4) + r9;
    let r7 = ",\"autostart\":"@ + r8;
    let r6 = esc(v.3) + (q + r7);
    let r5 = ",\"screenshots_dir\":\""@ + r6;
    let r4 = bool_lit(v.2) + r5;
    let r3 = ",\"save_screenshots\":"@ + r4;
    let r2 = bool_lit(v.1) + r3;
    let r1 = ",\"auto_copy_to_clipboard\":"@ + r2;
    let r0 = esc(v.0) + (q + r1);
    assert(s == "{\"global_hotkey\":\""@ + r0);
    lemma_starts_with_prefix("{\"global_hotkey\":\""@, r0);
    let s1 = s.skip("{\"global_hotkey\":\""@.len() as int);
    assert(s1 == r0);
    assert(r0 =~= esc(v.0) + q + r1);
    lemma_scan_esc(v.0, r1);
    let k1 = esc(v.0).len() as int + 1;
    assert(scan_str(s1) == Some((v.0, k1)));
    assert(r0 =~= (esc(v.0) + q) + r1);
    lemma_starts_with_prefix(esc(v.0) + q, r1);
    let s2 = s1.skip(k1);
    assert(s2 == r1);
    lemma_starts_with_prefix(",\"auto_copy_to_clipboard\":"@, r2);
    let s3 = s2.skip(",\"auto_copy_to_clipboard\":"@.len() as int);
    assert(s3 == r2);
    lemma_scan_bool(v.1, r3);
    let k3 = bool_lit(v.1).len() as int;
    let s4 = s3.skip(k3);
    assert(s4 =~= r3);
    lemma_starts_with_prefix(",\"save_screenshots\":"@, r4);
    let s5 = s4.skip(",\"save_screenshots\":"@.len() as int);
    assert(s5 == r4);
    lemma_scan_bool(v.2, r5);
    let k5 = bool_lit(v.2).len() as int;
    let s6 = s5.skip(k5);
    assert(s6 =~= r5);
    lemma_settings_rt_back(v.3, v.4, s6);
}

impl AppSettings {
    /// The defaults computed when no settings file exists.
    pub fn defaults(home: &str) -> (r: AppSettings)
        ensures
            r.global_hotkey@ == "ctrl+shift+o"@,
            r.auto_copy_to_clipboard == true,
            r.save_screenshots == true,
            r.screenshots_dir@ == home@ + "/InstantText OCR/Screenshots"@,
            r.autostart == false,
    {
        AppSettings {
            global_hotkey: String::from_str("ctrl+shift+o"),
            auto_copy_to_clipboard: true,
            save_screenshots: true,
            screenshots_dir: crate::paths::default_screenshots_dir(home),
            autostart: false,
        }
    }
}

impl Default for AppSettings {
    /// The defaults, with the screenshots directory derived from the
    /// platform home directory — the working directory standing in
    /// where the platform knows none.
    fn default() -> (r: AppSettings)
        ensures
            r.global_hotkey@ == "ctrl+shift+o"@,
            r.auto_copy_to_clipboard == true,
            r.save_screenshots == true,
            r.autostart == false,
    {
        let home = match crate::paths::home_dir() {
            Some(h) => h,
            None => <String as StringExecFns>::from_str("."),
        };
        AppSettings::defaults(home.as_str())
    }
}

/// Loads settings from the store file's content, `None` standing for an
/// absent file: absence yields the defaults and never fails; a present
/// but malformed file fails with a parse error.
pub fn get_settings(content: Option<&str>, home: &str) -> (r: Result<AppSettings, StoreError>)
    ensures
        match content {
            None => {
                &&& r is Ok
                &&& r->Ok_0.global_hotkey@ == "ctrl+shift+o"@
                &&& r->Ok_0.auto_copy_to_clipboard == true
                &&& r->Ok_0.save_screenshots == true
                &&& r->Ok_0.screenshots_dir@ == home@ + "/InstantText OCR/Screenshots"@
                &&& r->Ok_0.autostart == false
            },
            Some(text) => match parse_settings(text@) {
                Some(v) => r is Ok && r->Ok_0@ == v,
                None => r == Err::<AppSettings, StoreError>(StoreError::Parse),
            },
        },
{
    match content {
        None => Ok(AppSettings::defaults(home)),
        Some(text) => match parse_settings_text(text) {
            Some(st) => Ok(st),
            None => Err(StoreError::Parse),
        },
    }
}

} // verus!
