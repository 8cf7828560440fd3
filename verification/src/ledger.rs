//! The result ledger: an append-only ordered collection of recognition
//! results, fully rewritten on every append. Loading an absent file
//! yields the empty sequence and never fails; loading a malformed file
//! fails loudly. Appending, by contrast, swallows a malformed existing
//! file and starts over from the empty sequence — that asymmetry is the
//! store's deliberate resilience on the write path, kept as designed.
//! Writing and parsing are proved inverse, so a sequence of appends
//! followed by a load yields exactly the appended results in order.
use vstd::prelude::*;
use vstd::string::StrSliceExecFns;
use vstd::string::StringExecFns;
use crate::StoreError;
use crate::jsontext::{
    esc, dec, scan_str, scan_u64, starts_with,
    append_quoted, append_dec, match_lit, scan_string, scan_number,
    lemma_scan_esc, lemma_scan_dec, lemma_starts_with_prefix, lemma_lit_at_skip,
};

verus! {

/// One recognition result as the ledger stores it: the timestamp in
/// milliseconds since the Unix epoch, the confidence in thousandths.
#[derive(Clone, Debug, PartialEq, Eq)]
pub struct OcrResult {
    pub id: String,
    pub text: String,
    pub timestamp_ms: u64,
    pub screenshot_path: String,
    pub confidence_milli: u32,
}

/// The mathematical shape of one stored result.
pub type RecView = (Seq<char>, Seq<char>, u64, Seq<char>, u32);

impl View for OcrResult {
    type V = RecView;

    open spec fn view(&self) -> RecView {
        (self.id@, self.text@, self.timestamp_ms, self.screenshot_path@, self.confidence_milli)
    }
}

pub open spec fn seq_views(s: Seq<OcrResult>) -> Seq<RecView> {
    s.map_values(|r: OcrResult| r@)
}

/// The canonical written form of one result, grouped as the parser
/// consumes it.
pub open spec fn enc_result(v: RecView) -> Seq<char> {
    "{\"id\":\""@ + (esc(v.0) + (seq!['"']
        + (",\"text\":\""@ + (esc(v.1) + (seq!['"']
        + (",\"timestamp_ms\":"@ + (dec(v.2 as nat)
        + (",\"screenshot_path\":\""@ + (esc(v.3) + (seq!['"']
        + (",\"confidence_milli\":"@ + (dec(v.4 as nat)
        + "}"@))))))))))))
}

/// The results joined with commas, oldest first.
pub open spec fn enc_records(rs: Seq<RecView>) -> Seq<char>
    decreases rs.len(),
{
    if rs.len() == 0 { Seq::empty() }
    else if rs.len() == 1 { enc_result(rs[0]) }
    else { enc_result(rs[0]) + (seq![','] + enc_records(rs.skip(1))) }
}

/// The whole ledger document.
pub open spec fn enc_ledger(rs: Seq<RecView>) -> Seq<char> {
    seq!['['] + enc_records(rs) + seq![']']
}

/// Strict parse of the numeric and path fields of one result, from
/// the text that follows the second field; yields those fields and the
/// count consumed, closing brace included.
pub open spec fn parse_record_tail(s4: Seq<char>) -> Option<((u64, Seq<char>, u32), int)> {
    if !starts_with(s4, ",\"timestamp_ms\":"@) {
        None
    } else {
        let l3 = ",\"timestamp_ms\":"@.len() as int;
        match scan_u64(s4.skip(l3)) {
            None => None,
            Some((ts, k5)) => {
                let s6 = s4.skip(l3).skip(k5);
                if !starts_with(s6, ",\"screenshot_path\":\""@) {
                    None
                } else {
                    let l4 = ",\"screenshot_path\":\""@.len() as int;
                    match scan_str(s6.skip(l4)) {
                        None => None,
                        Some((pa, k7)) => {
                            let s8 = s6.skip(l4).skip(k7);
                            if !starts_with(s8, ",\"confidence_milli\":"@) {
                                None
                            } else {
                                let l5 = ",\"confidence_milli\":"@.len() as int;
                                match scan_u64(s8.skip(l5)) {
                                    None => None,
                                    Some((cm, k9)) => {
                                        let s10 = s8.skip(l5).skip(k9);
                                        if cm <= u32::MAX as u64 && starts_with(s10, "}"@) {
                                            Some(((ts, pa, cm as u32), l3 + k5 + l4 + k7 + l5 + k9 + 1))
                                        } else {
                                            None
                                        }
                                    },
                                }
                            }
                        },
                    }
                }
            },
        }
    }
}

/// Strict parse of one result; yields the record and the count of
/// characters consumed, closing brace included.
pub open spec fn parse_record(s: Seq<char>) -> Option<(RecView, int)> {
    if !starts_with(s, "{\"id\":\""@) {
        None
    } else {
        let l1 = "{\"id\":\""@.len() as int;
        match scan_str(s.skip(l1)) {
            None => None,
            Some((id, k1)) => {
                let s2 = s.skip(l1).skip(k1);
                if !starts_with(s2, ",\"text\":\""@) {
                    None
                } else {
                    let l2 = ",\"text\":\""@.len() as int;
                    match scan_str(s2.skip(l2)) {
                        None => None,
                        Some((tx, k3)) => {
                            let s4 = s2.skip(l2).skip(k3);
                            match parse_record_tail(s4) {
                                None => None,
                                Some((tl, k)) => Some(((id, tx, tl.0, tl.1, tl.2),
                                    l1 + k1 + l2 + k3 + k)),
                            }
                        },
                    }
                }
            },
        }
    }
}

/// Strict scan of one or more comma-separated results followed by the
/// closing bracket; yields the records and the count consumed, bracket
/// included.
pub open spec fn scan_records(s: Seq<char>) -> Option<(Seq<RecView>, int)>
    decreases s.len(),
{
    match parse_record(s) {
        None => None,
        Some((r, k)) => {
            if 0 < k < s.len() && s[k] == ',' {
                match scan_records(s.skip(k + 1)) {
                    None => None,
                    Some((rs, k2)) => Some((seq![r] + rs, k + 1 + k2)),
                }
            } else if 0 < k < s.len() && s[k] == ']' {
                Some((seq![r], k + 1))
            } else {
                None
            }
        },
    }
}

/// Strict parse of a whole ledger document: accepts exactly the text
/// `enc_ledger` produces.
pub open spec fn parse_ledger(s: Seq<char>) -> Option<Seq<RecView>> {
    if !starts_with(s, "["@) {
        None
    } else if s == "[]"@ {
        Some(Seq::empty())
    } else {
        match scan_records(s.skip(1)) {
            None => None,
            Some((rs, k)) => if 1 + k == s.len() { Some(rs) } else { None },
        }
    }
}

/// Appends the canonical written form of one result.
#[verifier::rlimit(100)]
pub fn append_result(out: &mut String, r: &OcrResult)
    ensures
        final(out)@ == old(out)@ + enc_result(r@),
{
    out.append("{\"id\":");
    append_quoted(out, r.id.as_str());
    out.append(",\"text\":");
    append_quoted(out, r.text.as_str());
    out.append(",\"timestamp_ms\":");
    append_dec(out, r.timestamp_ms);
    out.append(",\"screenshot_path\":");
    append_quoted(out, r.screenshot_path.as_str());
    out.append(",\"confidence_milli\":");
    append_dec(out, r.confidence_milli as u64);
    out.append("}");
    proof {
        reveal_strlit("{\"id\":");
        reveal_strlit("{\"id\":\"");
        reveal_strlit(",\"text\":");
        reveal_strlit(",\"text\":\"");
        reveal_strlit(",\"screenshot_path\":");
        reveal_strlit(",\"screenshot_path\":\"");
        assert(out@ =~= old(out)@ + enc_result(r@));
    }
}

proof fn lemma_enc_records_snoc(rs: Seq<RecView>, v: RecView)
    ensures
        rs.len() == 0 ==> enc_records(rs.push(v)) == enc_result(v),
        rs.len() >= 1 ==> enc_records(rs.push(v))
            == enc_records(rs) + (seq![','] + enc_result(v)),
    decreases rs.len(),
{
    let p = rs.push(v);
    if rs.len() == 0 {
        assert(p.len() == 1);
        assert(p[0] == v);
    } else if rs.len() == 1 {
        assert(p.len() == 2);
        assert(p[0] == rs[0]);
        assert(p.skip(1) =~= seq![v]);
        assert(enc_records(seq![v]) == enc_result(v));
    } else {
        assert(p[0] == rs[0]);
        assert(p.skip(1) =~= rs.skip(1).push(v));
        lemma_enc_records_snoc(rs.skip(1), v);
        assert(enc_records(rs.skip(1).push(v))
            == enc_records(rs.skip(1)) + (seq![','] + enc_result(v)));
        assert(enc_result(p[0]) + (seq![','] + (enc_records(rs.skip(1)) + (seq![','] + enc_result(v))))
            =~= (enc_result(rs[0]) + (seq![','] + enc_records(rs.skip(1)))) + (seq![','] + enc_result(v)));
    }
}

/// Serializes a whole ledger to its canonical written form.
pub fn encode_ledger(results: &Vec<OcrResult>) -> (r: String)
    ensures
        r@ == enc_ledger(seq_views(results@)),
{
    let mut out = String::new();
    out.append("[");
    let ghost all = seq_views(results@);
    let mut i: usize = 0;
    proof {
        reveal_strlit("[");
        assert(out@ =~= seq!['['] + enc_records(all.take(0)));
    }
    while i < results.len()
        invariant
            i <= results.len(),
            all == seq_views(results@),
            all.len() == results@.len(),
            forall|p: int| 0 <= p < all.len() ==> all[p] == #[trigger] results@[p]@,
            out@ == seq!['['] + enc_records(all.take(i as int)),
        decreases results.len() - i,
    {
        if i > 0 {
            out.append(",");
            proof {
                reveal_strlit(",");
            }
        }
        let ghost pre = out@;
        append_result(&mut out, &results[i]);
        proof {
            lemma_enc_records_snoc(all.take(i as int), all[i as int]);
            assert(all.take(i + 1 as int) =~= all.take(i as int).push(all[i as int]));
            if i == 0 {
                assert(out@ =~= seq!['['] + enc_records(all.take(i + 1 as int)));
            } else {
                assert(out@ =~= seq!['['] + (enc_records(all.take(i as int))
                    + (seq![','] + enc_result(all[i as int]))));
                assert(out@ =~= seq!['['] + enc_records(all.take(i + 1 as int)));
            }
        }
        i += 1;
    }
    out.append("]");
    proof {
        reveal_strlit("]");
        assert(all.take(all.len() as int) =~= all);
        assert(out@ =~= enc_ledger(all));
    }
    out
}

/// Parses one result beginning at `from`. Agrees exactly with
/// `parse_record`.
#[verifier::rlimit(100)]
pub fn parse_record_text(s: &str, from: usize) -> (r: Option<(OcrResult, usize)>)
    requires
        from <= s@.len(),
    ensures
        match r {
            Some(p) => {
                &&& parse_record(s@.skip(from as int)) == Some((p.0@, p.1 - from as int))
                &&& from < p.1 <= s@.len()
            },
            None => parse_record(s@.skip(from as int)) is None,
        },
{
    let ghost t = s@.skip(from as int);
    proof {
        lemma_lit_at_skip(s@, from as int, "{\"id\":\""@);
    }
    let i1 = match match_lit(s, from, "{\"id\":\"") {
        None => { return None; },
        Some(i) => i,
    };
    proof {
        assert(t.skip("{\"id\":\""@.len() as int) =~= s@.skip(i1 as int));
    }
    let (id, i2) = match scan_string(s, i1) {
        None => { return None; },
        Some(p) => p,
    };
    let ghost s2 = t.skip("{\"id\":\""@.len() as int).skip(i2 - i1);
    proof {
        assert(s2 =~= s@.skip(i2 as int));
        lemma_lit_at_skip(s@, i2 as int, ",\"text\":\""@);
    }
    let i3 = match match_lit(s, i2, ",\"text\":\"") {
        None => { return None; },
        Some(i) => i,
    };
    proof {
        assert(s2.skip(",\"text\":\""@.len() as int) =~= s@.skip(i3 as int));
    }
    let (tx, i4) = match scan_string(s, i3) {
        None => { return None; },
        Some(p) => p,
    };
    let ghost s4 = s2.skip(",\"text\":\""@.len() as int).skip(i4 - i3);
    proof {
        assert(s4 =~= s@.skip(i4 as int));
        lemma_lit_at_skip(s@, i4 as int, ",\"timestamp_ms\":"@);
    }
    let i5 = match match_lit(s, i4, ",\"timestamp_ms\":") {
        None => { return None; },
        Some(i) => i,
    };
    proof {
        assert(s4.skip(",\"timestamp_ms\":"@.len() as int) =~= s@.skip(i5 as int));
    }
    let (ts, i6) = match scan_number(s, i5) {
        None => { return None; },
        Some(p) => p,
    };
    let ghost s6 = s4.skip(",\"timestamp_ms\":"@.len() as int).skip(i6 - i5);
    proof {
        assert(s6 =~= s@.skip(i6 as int));
        lemma_lit_at_skip(s@, i6 as int, ",\"screenshot_path\":\""@);
    }
    let i7 = match match_lit(s, i6, ",\"screenshot_path\":\"") {
        None => { return None; },
        Some(i) => i,
    };
    proof {
        assert(s6.skip(",\"screenshot_path\":\""@.len() as int) =~= s@.skip(i7 as int));
    }
    let (pa, i8) = match scan_string(s, i7) {
        None => { return None; },
        Some(p) => p,
    };
    let ghost s8 = s6.skip(",\"screenshot_path\":\""@.len() as int).skip(i8 - i7);
    proof {
        assert(s8 =~= s@.skip(i8 as int));
        lemma_lit_at_skip(s@, i8 as int, ",\"confidence_milli\":"@);
    }
    let i9 = match match_lit(s, i8, ",\"confidence_milli\":") {
        None => { return None; },
        Some(i) => i,
    };
    proof {
        assert(s8.skip(",\"confidence_milli\":"@.len() as int) =~= s@.skip(i9 as int));
    }
    let (cm, i10) = match scan_number(s, i9) {
        None => { return None; },
        Some(p) => p,
    };
    let ghost s10 = s8.skip(",\"confidence_milli\":"@.len() as int).skip(i10 - i9);
    proof {
        assert(s10 =~= s@.skip(i10 as int));
        lemma_lit_at_skip(s@, i10 as int, "}"@);
    }
    if cm > u32::MAX as u64 {
        return None;
    }
    let iend = match match_lit(s, i10, "}") {
        None => { return None; },
        Some(i) => i,
    };
    proof {
        reveal_strlit("}");
    }
    Some((OcrResult {
        id,
        text: tx,
        timestamp_ms: ts,
        screenshot_path: pa,
        confidence_milli: cm as u32,
    }, iend))
}

pub open spec fn recs_prepend(pre: Seq<RecView>, shift: int, r: Option<(Seq<RecView>, int)>) -> Option<(Seq<RecView>, int)> {
    match r {
        Some((t, k)) => Some((pre + t, k + shift)),
        None => None,
    }
}

proof fn lemma_recs_prepend_compose(pre: Seq<RecView>, v: RecView, shift: int, step: int, r: Option<(Seq<RecView>, int)>)
    ensures
        recs_prepend(pre, shift, recs_prepend(seq![v], step, r))
            == recs_prepend(pre.push(v), shift + step, r),
{
    match r {
        Some((t, k)) => {
            assert(pre + (seq![v] + t) =~= pre.push(v) + t);
        },
        None => {},
    }
}

/// Parses a whole ledger document. Agrees exactly with `parse_ledger`.
#[verifier::rlimit(100)]
pub fn parse_ledger_text(s: &str) -> (r: Option<Vec<OcrResult>>)
    ensures
        match r {
            Some(v) => parse_ledger(s@) == Some(seq_views(v@)),
            None => parse_ledger(s@) is None,
        },
{
    let n = s.unicode_len();
    proof {
        lemma_lit_at_skip(s@, 0, "["@);
        assert(s@.skip(0) =~= s@);
        reveal_strlit("[");
        reveal_strlit("[]");
    }
    if match_lit(s, 0, "[").is_none() {
        proof {
            if parse_ledger(s@) is Some {
                assert(starts_with(s@, "["@));
            }
        }
        return None;
    }
    if n == 2 && s.get_char(1) == ']' {
        proof {
            assert(s@ =~= "[]"@);
            assert(seq_views(Seq::<OcrResult>::empty()) =~= Seq::<RecView>::empty());
        }
        let empty_vec: Vec<OcrResult> = Vec::new();
        proof {
            assert(empty_vec@ =~= Seq::<OcrResult>::empty());
        }
        return Some(empty_vec);
    }
    proof {
        assert(s@ != "[]"@) by {
            if s@ == "[]"@ {
                assert(s@.len() == 2);
                assert(s@[1] == ']');
            }
        }
    }
    let mut acc: Vec<OcrResult> = Vec::new();
    let mut j: usize = 1;
    proof {
        assert(n >= 1);
        assert(seq_views(acc@) =~= Seq::<RecView>::empty());
        assert(scan_records(s@.skip(1))
            == recs_prepend(seq_views(acc@), 0, scan_records(s@.skip(1))));
    }
    loop
        invariant
            1 <= j <= n,
            n == s@.len(),
            s@ != "[]"@,
            starts_with(s@, "["@),
            scan_records(s@.skip(1)) == recs_prepend(seq_views(acc@), j - 1, scan_records(s@.skip(j as int))),
        decreases n - j,
    {
        let (rec, j2) = match parse_record_text(s, j) {
            None => { return None; },
            Some(p) => p,
        };
        let ghost tail = s@.skip(j as int);
        if j2 < n {
            let c = s.get_char(j2);
            proof {
                assert(tail[j2 - j] == c);
            }
            if c == ',' {
                proof {
                    assert(tail.skip(j2 - j + 1) =~= s@.skip(j2 + 1 as int));
                    assert(scan_records(tail)
                        == recs_prepend(seq![rec@], j2 + 1 - j, scan_records(s@.skip(j2 + 1 as int))));
                    lemma_recs_prepend_compose(seq_views(acc@), rec@, j - 1, j2 + 1 - j,
                        scan_records(s@.skip(j2 + 1 as int)));
                    assert(seq_views(acc@).push(rec@) =~= seq_views(acc@.push(rec)));
                }
                acc.push(rec);
                j = j2 + 1;
            } else if c == ']' {
                proof {
                    assert(scan_records(tail) == Some((seq![rec@], j2 + 1 - j as int)));
                    assert(seq_views(acc@) + seq![rec@] =~= seq_views(acc@.push(rec)));
                    assert(scan_records(s@.skip(1)) == Some((seq_views(acc@.push(rec)), j2 as int)));
                }
                acc.push(rec);
                if j2 + 1 == n {
                    return Some(acc);
                } else {
                    return None;
                }
            } else {
                proof {
                    assert(scan_records(tail) is None);
                }
                return None;
            }
        } else {
            proof {
                assert(j2 == n);
                assert(scan_records(tail) is None);
            }
            return None;
        }
    }
}

// ----------------------------------------------------------------------
// Round trip: parsing what was written recovers the records.
// ----------------------------------------------------------------------

/// Back half of the record round trip: the numeric and path fields.
#[verifier::rlimit(100)]
proof fn lemma_record_rt_back(v: RecView, rest: Seq<char>, s4: Seq<char>)
    requires
        s4 == ",\"timestamp_ms\":"@ + (dec(v.2 as nat)
            + (",\"screenshot_path\":\""@ + (esc(v.3) + (seq!['"']
            + (",\"confidence_milli\":"@ + (dec(v.4 as nat)
            + ("}"@ + rest))))))),
    ensures
        parse_record_tail(s4) == Some(((v.2, v.3, v.4),
            (",\"timestamp_ms\":"@.len() + dec(v.2 as nat).len()
                + ",\"screenshot_path\":\""@.len() + esc(v.3).len() + 1
                + ",\"confidence_milli\":"@.len() + dec(v.4 as nat).len() + 1) as int)),
{
    let q = seq!['"'];
    let u9 = "}"@ + rest;
    let u8 = dec(v.4 as nat) + u9;
    let u7 = ",\"confidence_milli\":"@ + u8;
    let u6 = esc(v.3) + (q + u7);
    let u5 = ",\"screenshot_path\":\""@ + u6;
    let u4 = dec(v.2 as nat) + u5;
    reveal_strlit(",\"screenshot_path\":\"");
    reveal_strlit(",\"confidence_milli\":");
    reveal_strlit("}");
    lemma_starts_with_prefix(",\"timestamp_ms\":"@, u4);
    let s5 = s4.skip(",\"timestamp_ms\":"@.len() as int);
    assert(s5 == u4);
    assert(u5[0] == ',');
    assert(!crate::jsontext::is_digit(','));
    lemma_scan_dec(v.2, u5);
    let s6 = s5.skip(dec(v.2 as nat).len() as int);
    lemma_starts_with_prefix(dec(v.2 as nat), u5);
    assert(s6 == u5);
    lemma_starts_with_prefix(",\"screenshot_path\":\""@, u6);
    let s7 = s6.skip(",\"screenshot_path\":\""@.len() as int);
    assert(s7 == u6);
    assert(u6 =~= esc(v.3) + q + u7);
    lemma_scan_esc(v.3, u7);
    assert(scan_str(s7) == Some((v.3, esc(v.3).len() as int + 1)));
    assert(u6 =~= (esc(v.3) + q) + u7);
    lemma_starts_with_prefix(esc(v.3) + q, u7);
    let s8 = s7.skip(esc(v.3).len() as int + 1);
    assert(s8 == u7);
    lemma_starts_with_prefix(",\"confidence_milli\":"@, u8);
    let s9 = s8.skip(",\"confidence_milli\":"@.len() as int);
    assert(s9 == u8);
    assert(u9[0] == '}');
    assert(!crate::jsontext::is_digit('}'));
    lemma_scan_dec(v.4 as u64, u9);
    let s10 = s9.skip(dec(v.4 as nat).len() as int);
    lemma_starts_with_prefix(dec(v.4 as nat), u9);
    assert(s10 == u9);
    lemma_starts_with_prefix("}"@, rest);
    assert(starts_with(s10, "}"@));
}

/// Parsing the text `enc_result` wrote, whatever follows it, recovers
/// the record and consumes exactly its written form.
#[verifier::rlimit(100)]
pub proof fn lemma_record_rt(v: RecView, rest: Seq<char>)
    ensures
        parse_record(enc_result(v) + rest) == Some((v, enc_result(v).len() as int)),
{
    let q = seq!['"'];
    let s = enc_result(v) + rest;
    let u9 = "}"@ + rest;
    let u8 = dec(v.4 as nat) + u9;
    let u7 = ",\"confidence_milli\":"@ + u8;
    let u6 = esc(v.3) + (q + u7);
    let u5 = ",\"screenshot_path\":\""@ + u6;
    let u4 = dec(v.2 as nat) + u5;
    let u3 = ",\"timestamp_ms\":"@ + u4;
    let u2 = esc(v.1) + (q + u3);
    let u1 = ",\"text\":\""@ + u2;
    let u0 = esc(v.0) + (q + u1);
    assert(s =~= "{\"id\":\""@ + u0);
    lemma_starts_with_prefix("{\"id\":\""@, u0);
    let s1 = s.skip("{\"id\":\""@.len() as int);
    assert(s1 == u0);
    assert(u0 =~= esc(v.0) + q + u1);
    lemma_scan_esc(v.0, u1);
    assert(scan_str(s1) == Some((v.0, esc(v.0).len() as int + 1)));
    assert(u0 =~= (esc(v.0) + q) + u1);
    lemma_starts_with_prefix(esc(v.0) + q, u1);
    let s2 = s1.skip(esc(v.0).len() as int + 1);
    assert(s2 == u1);
    lemma_starts_with_prefix(",\"text\":\""@, u2);
    let s3 = s2.skip(",\"text\":\""@.len() as int);
    assert(s3 == u2);
    assert(u2 =~= esc(v.1) + q + u3);
    lemma_scan_esc(v.1, u3);
    assert(scan_str(s3) == Some((v.1, esc(v.1).len() as int + 1)));
    assert(u2 =~= (esc(v.1) + q) + u3);
    lemma_starts_with_prefix(esc(v.1) + q, u3);
    let s4 = s3.skip(esc(v.1).len() as int + 1);
    assert(s4 == u3);
    lemma_record_rt_back(v, rest, s4);
    reveal_strlit("}");
    assert((v.0, v.1, v.2, v.3, v.4) == v);
    assert(enc_result(v).len() == "{\"id\":\""@.len() + (esc(v.0).len() + (1
        + (",\"text\":\""@.len() + (esc(v.1).len() + (1
        + (",\"timestamp_ms\":"@.len() + (dec(v.2 as nat).len()
        + (",\"screenshot_path\":\""@.len() + (esc(v.3).len() + (1
        + (",\"confidence_milli\":"@.len() + (dec(v.4 as nat).len()
        + 1)))))))))))));
}

/// Scanning the text `enc_records` wrote, bracket-terminated, recovers
/// the records in order.
pub proof fn lemma_records_rt(rs: Seq<RecView>)
    requires
        rs.len() >= 1,
    ensures
        scan_records(enc_records(rs) + seq![']']) == Some((rs, enc_records(rs).len() as int + 1)),
    decreases rs.len(),
{
    let s = enc_records(rs) + seq![']'];
    if rs.len() == 1 {
        assert(enc_records(rs) == enc_result(rs[0]));
        lemma_record_rt(rs[0], seq![']']);
        let k = enc_result(rs[0]).len() as int;
        assert(s[k] == ']');
        assert(s[k] != ',');
        assert(seq![rs[0]] =~= rs);
    } else {
        let hd = enc_result(rs[0]);
        let tl = enc_records(rs.skip(1));
        assert(enc_records(rs) == hd + (seq![','] + tl));
        let rest1 = seq![','] + (tl + seq![']']);
        assert(s =~= hd + rest1);
        lemma_record_rt(rs[0], rest1);
        let k = hd.len() as int;
        assert(parse_record(s) == Some((rs[0], k)));
        assert(s[k] == ',');
        assert(s.skip(k + 1) =~= tl + seq![']']);
        lemma_records_rt(rs.skip(1));
        assert(scan_records(s.skip(k + 1)) == Some((rs.skip(1), tl.len() as int + 1)));
        assert(seq![rs[0]] + rs.skip(1) =~= rs);
        assert(s.len() == hd.len() + 1 + tl.len() + 1);
    }
}

/// Parsing the text `encode_ledger` wrote recovers exactly the appended
/// results, in insertion order: the ledger round-trips.
pub proof fn lemma_ledger_rt(rs: Seq<RecView>)
    ensures
        parse_ledger(enc_ledger(rs)) == Some(rs),
{
    let s = enc_ledger(rs);
    reveal_strlit("[");
    reveal_strlit("[]");
    reveal_strlit("{\"id\":\"");
    if rs.len() == 0 {
        assert(s =~= "[]"@);
        assert(starts_with(s, "["@)) by {
            assert(s.take(1) =~= "["@);
        }
    } else {
        assert(s.take(1) =~= "["@);
        assert(starts_with(s, "["@));
        lemma_records_rt(rs);
        assert(enc_records(rs).len() >= "{\"id\":\""@.len()) by {
            if rs.len() == 1 {
                assert(enc_records(rs) == enc_result(rs[0]));
            }
        }
        assert(s.len() > 2);
        assert(s != "[]"@) by {
            assert("[]"@.len() == 2);
        }
        assert(s.skip(1) =~= enc_records(rs) + seq![']']);
        assert(scan_records(s.skip(1)) == Some((rs, enc_records(rs).len() as int + 1)));
        assert(1 + (enc_records(rs).len() as int + 1) == s.len());
    }
}

// ----------------------------------------------------------------------
// The store operations.
// ----------------------------------------------------------------------

/// Loads the full history from the ledger file's content, `None`
/// standing for an absent file: absence yields the empty sequence and
/// never fails; a present but malformed file fails with a parse error.
pub fn get_ocr_history(content: Option<&str>) -> (r: Result<Vec<OcrResult>, StoreError>)
    ensures
        match content {
            None => r is Ok && r->Ok_0@.len() == 0,
            Some(text) => match parse_ledger(text@) {
                Some(rs) => r is Ok && seq_views(r->Ok_0@) == rs,
                None => r == Err::<Vec<OcrResult>, StoreError>(StoreError::Parse),
            },
        },
{
    match content {
        None => Ok(Vec::new()),
        Some(text) => match parse_ledger_text(text) {
            Some(v) => Ok(v),
            None => Err(StoreError::Parse),
        },
    }
}

/// The records an append starts from: the parsed content, or the empty
/// sequence for an absent or malformed file — append swallows parse
/// failures to keep the write path resilient, unlike the strict load.
pub open spec fn prior_records(content: Option<Seq<char>>) -> Seq<RecView> {
    match content {
        None => Seq::empty(),
        Some(c) => match parse_ledger(c) {
            Some(rs) => rs,
            None => Seq::empty(),
        },
    }
}

/// Loading the document an append wrote yields the records the append
/// started from with the new one at the end; and a further append
/// starts from exactly those records. Sequential appends therefore
/// accumulate in insertion order. Nothing serializes two appends that
/// start from the same document — each is a pure rewrite of what it
/// read, and the later write wins — so a single writer must order them.
pub proof fn lemma_append_then_load(content: Option<Seq<char>>, v: RecView)
    ensures
        parse_ledger(enc_ledger(prior_records(content).push(v)))
            == Some(prior_records(content).push(v)),
        prior_records(Some(enc_ledger(prior_records(content).push(v))))
            == prior_records(content).push(v),
{
    lemma_ledger_rt(prior_records(content).push(v));
}

/// Appends one result and yields the full rewritten ledger document.
pub fn save_ocr_result(content: Option<&str>, result: OcrResult) -> (r: String)
    ensures
        r@ == enc_ledger(prior_records(match content {
            None => None,
            Some(c) => Some(c@),
        }).push(result@)),
{
    let mut results: Vec<OcrResult> = match content {
        None => Vec::new(),
        Some(text) => match parse_ledger_text(text) {
            Some(v) => v,
            None => Vec::new(),
        },
    };
    results.push(result);
    proof {
        assert(seq_views(results@) =~= prior_records(match content {
            None => None,
            Some(c) => Some(c@),
        }).push(result@));
    }
    encode_ledger(&results)
}

} // verus!
