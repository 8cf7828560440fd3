//! Character-level building blocks of the persisted text format: string
//! escaping and its strict inverse, decimal rendering and parsing of
//! unsigned integers, and fixed-literal matching. Every writer has an
//! exact spec-level counterpart, and every scanner is proved equal to a
//! spec-level scanner, so round trips can be proved once at the spec
//! level and inherited by the executable code.
use vstd::prelude::*;
use vstd::string::StrSliceExecFns;
use vstd::string::StringExecFns;

verus! {

// ----------------------------------------------------------------------
// String escaping.
//
// A string value is stored between double quotes. The quote, the
// backslash and every control character are escaped; every character has
// exactly one accepted written form, so the scanner below accepts only
// the canonical spelling that `esc` produces.
// ----------------------------------------------------------------------

pub open spec fn hex_digit(n: int) -> char {
    if n == 0 { '0' } else if n == 1 { '1' } else if n == 2 { '2' }
    else if n == 3 { '3' } else if n == 4 { '4' } else if n == 5 { '5' }
    else if n == 6 { '6' } else if n == 7 { '7' } else if n == 8 { '8' }
    else if n == 9 { '9' } else if n == 10 { 'a' } else if n == 11 { 'b' }
    else if n == 12 { 'c' } else if n == 13 { 'd' } else if n == 14 { 'e' }
    else { 'f' }
}

/// Value of a lowercase hex digit, or -1 for any other character.
pub open spec fn unhex(c: char) -> int {
    if c == '0' { 0 } else if c == '1' { 1 } else if c == '2' { 2 }
    else if c == '3' { 3 } else if c == '4' { 4 } else if c == '5' { 5 }
    else if c == '6' { 6 } else if c == '7' { 7 } else if c == '8' { 8 }
    else if c == '9' { 9 } else if c == 'a' { 10 } else if c == 'b' { 11 }
    else if c == 'c' { 12 } else if c == 'd' { 13 } else if c == 'e' { 14 }
    else if c == 'f' { 15 } else { -1 }
}

pub open spec fn is_ctl(c: char) -> bool {
    (c as u32) < 32
}

/// The written form of one character inside a quoted string.
pub open spec fn esc_char(c: char) -> Seq<char> {
    if c == '"' { seq!['\\', '"'] }
    else if c == '\\' { seq!['\\', '\\'] }
    else if c == '\n' { seq!['\\', 'n'] }
    else if c == '\t' { seq!['\\', 't'] }
    else if c == '\r' { seq!['\\', 'r'] }
    else if is_ctl(c) {
        seq!['\\', 'u', '0', '0', hex_digit((c as u32) as int / 16), hex_digit((c as u32) as int % 16)]
    } else { seq![c] }
}

pub open spec fn esc(s: Seq<char>) -> Seq<char>
    decreases s.len(),
{
    if s.len() == 0 { Seq::empty() } else { esc_char(s[0]) + esc(s.skip(1)) }
}

/// A complete quoted string value.
pub open spec fn quoted(s: Seq<char>) -> Seq<char> {
    seq!['"'] + esc(s) + seq!['"']
}

pub proof fn lemma_esc_push(s: Seq<char>, c: char)
    ensures
        esc(s.push(c)) == esc(s) + esc_char(c),
    decreases s.len(),
{
    if s.len() == 0 {
        assert(s.push(c)[0] == c);
        assert(s.push(c).skip(1) =~= Seq::<char>::empty());
        assert(esc(Seq::<char>::empty()) == Seq::<char>::empty());
        assert(esc(s.push(c)) == esc_char(c) + esc(s.push(c).skip(1)));
        assert(esc(s.push(c)) =~= esc(s) + esc_char(c));
    } else {
        assert(s.push(c).skip(1) =~= s.skip(1).push(c));
        lemma_esc_push(s.skip(1), c);
        assert(s.push(c)[0] == s[0]);
        assert(esc(s.push(c)) == esc_char(s[0]) + (esc(s.skip(1)) + esc_char(c)));
        assert(esc_char(s[0]) + (esc(s.skip(1)) + esc_char(c))
            =~= (esc_char(s[0]) + esc(s.skip(1))) + esc_char(c));
    }
}

/// Relies on `String::push`: appends exactly the given character.
#[verifier::external_body]
pub(crate) fn push_char(out: &mut String, c: char)
    ensures
        final(out)@ == old(out)@.push(c),
{
    out.push(c);
}

fn hex_char(n: u8) -> (c: char)
    requires
        n < 16,
    ensures
        c == hex_digit(n as int),
{
    if n == 0 { '0' } else if n == 1 { '1' } else if n == 2 { '2' }
    else if n == 3 { '3' } else if n == 4 { '4' } else if n == 5 { '5' }
    else if n == 6 { '6' } else if n == 7 { '7' } else if n == 8 { '8' }
    else if n == 9 { '9' } else if n == 10 { 'a' } else if n == 11 { 'b' }
    else if n == 12 { 'c' } else if n == 13 { 'd' } else if n == 14 { 'e' }
    else { 'f' }
}

/// Appends the quoted, escaped form of `s` to `out`.
pub fn append_quoted(out: &mut String, s: &str)
    ensures
        final(out)@ == old(out)@ + quoted(s@),
{
    out.append("\"");
    proof {
        reveal_strlit("\"");
        assert(old(out)@ + "\""@ =~= old(out)@ + seq!['"']);
    }
    let ghost mid = out@;
    let n = s.unicode_len();
    let mut i: usize = 0;
    while i < n
        invariant
            i <= n,
            n == s@.len(),
            out@ == mid + esc(s@.take(i as int)),
        decreases n - i,
    {
        let c = s.get_char(i);
        let ghost pre = out@;
        if c == '"' {
            out.append("\\\"");
            proof {
                reveal_strlit("\\\"");
                assert(out@ =~= pre + esc_char(c));
            }
        } else if c == '\\' {
            out.append("\\\\");
            proof {
                reveal_strlit("\\\\");
                assert(out@ =~= pre + esc_char(c));
            }
        } else if c == '\n' {
            out.append("\\n");
            proof {
                reveal_strlit("\\n");
                assert(out@ =~= pre + esc_char(c));
            }
        } else if c == '\t' {
            out.append("\\t");
            proof {
                reveal_strlit("\\t");
                assert(out@ =~= pre + esc_char(c));
            }
        } else if c == '\r' {
            out.append("\\r");
            proof {
                reveal_strlit("\\r");
                assert(out@ =~= pre + esc_char(c));
            }
        } else if (c as u32) < 32 {
            out.append("\\u00");
            let v: u32 = c as u32;
            push_char(out, hex_char((v / 16) as u8));
            push_char(out, hex_char((v % 16) as u8));
            proof {
                reveal_strlit("\\u00");
                assert(out@ =~= pre + esc_char(c));
            }
        } else {
            push_char(out, c);
            proof {
                assert(out@ =~= pre + esc_char(c));
            }
        }
        proof {
            lemma_esc_push(s@.take(i as int), c);
            assert(s@.take(i + 1 as int) =~= s@.take(i as int).push(c));
            assert(out@ =~= mid + esc(s@.take(i + 1 as int)));
        }
        i += 1;
    }
    proof {
        assert(s@.take(n as int) =~= s@);
    }
    out.append("\"");
    proof {
        reveal_strlit("\"");
        assert(out@ =~= old(out)@ + quoted(s@));
    }
}

// ----------------------------------------------------------------------
// Scanning a quoted string body. `scan_str` starts just after the
// opening quote and yields the decoded text together with the number of
// characters consumed, closing quote included; it accepts exactly the
// spellings `esc` produces.
// ----------------------------------------------------------------------

/// The character written as a two-character escape.
pub open spec fn unesc2(e: char) -> char {
    if e == '"' { '"' } else if e == '\\' { '\\' }
    else if e == 'n' { '\n' } else if e == 't' { '\t' } else { '\r' }
}

pub open spec fn scan_str(s: Seq<char>) -> Option<(Seq<char>, int)>
    decreases s.len(),
{
    if s.len() == 0 {
        None
    } else if s[0] == '"' {
        Some((Seq::empty(), 1))
    } else if s[0] == '\\' {
        if s.len() < 2 {
            None
        } else {
            let e = s[1];
            if e == '"' || e == '\\' || e == 'n' || e == 't' || e == 'r' {
                match scan_str(s.skip(2)) {
                    Some((t, k)) => Some((seq![unesc2(e)] + t, k + 2)),
                    None => None,
                }
            } else if e == 'u' {
                if s.len() >= 6 && s[2] == '0' && s[3] == '0' && unhex(s[4]) >= 0 && unhex(s[5]) >= 0 {
                    let v = unhex(s[4]) * 16 + unhex(s[5]);
                    if v < 32 && v != 9 && v != 10 && v != 13 {
                        match scan_str(s.skip(6)) {
                            Some((t, k)) => Some((seq![(v as u32) as char] + t, k + 6)),
                            None => None,
                        }
                    } else {
                        None
                    }
                } else {
                    None
                }
            } else {
                None
            }
        }
    } else if is_ctl(s[0]) {
        None
    } else {
        match scan_str(s.skip(1)) {
            Some((t, k)) => Some((seq![s[0]] + t, k + 1)),
            None => None,
        }
    }
}

pub open spec fn scan_prepend(pre: Seq<char>, shift: int, r: Option<(Seq<char>, int)>) -> Option<(Seq<char>, int)> {
    match r {
        Some((t, k)) => Some((pre + t, k + shift)),
        None => None,
    }
}

proof fn lemma_prepend_compose(pre: Seq<char>, c: char, shift: int, step: int, r: Option<(Seq<char>, int)>)
    ensures
        scan_prepend(pre, shift, scan_prepend(seq![c], step, r))
            == scan_prepend(pre.push(c), shift + step, r),
{
    match r {
        Some((t, k)) => {
            assert(pre + (seq![c] + t) =~= pre.push(c) + t);
        },
        None => {},
    }
}

fn unhex_exec(c: char) -> (r: i8)
    ensures
        r as int == unhex(c),
{
    if c == '0' { 0 } else if c == '1' { 1 } else if c == '2' { 2 }
    else if c == '3' { 3 } else if c == '4' { 4 } else if c == '5' { 5 }
    else if c == '6' { 6 } else if c == '7' { 7 } else if c == '8' { 8 }
    else if c == '9' { 9 } else if c == 'a' { 10 } else if c == 'b' { 11 }
    else if c == 'c' { 12 } else if c == 'd' { 13 } else if c == 'e' { 14 }
    else if c == 'f' { 15 } else { -1 }
}

/// Scans the body of a quoted string beginning at `from` (just after the
/// opening quote); returns the decoded text and the index just past the
/// closing quote. Agrees exactly with `scan_str`.
pub fn scan_string(s: &str, from: usize) -> (r: Option<(String, usize)>)
    requires
        from <= s@.len(),
    ensures
        match r {
            Some(p) => {
                &&& scan_str(s@.skip(from as int)) == Some((p.0@, p.1 - from as int))
                &&& from < p.1 <= s@.len()
            },
            None => scan_str(s@.skip(from as int)) is None,
        },
{
    let n = s.unicode_len();
    let mut acc = String::new();
    let mut j: usize = from;
    loop
        invariant
            from <= j <= n,
            n == s@.len(),
            scan_str(s@.skip(from as int)) == scan_prepend(acc@, j - from, scan_str(s@.skip(j as int))),
        decreases n - j,
    {
        proof {
            assert(s@.skip(j as int).len() == n - j);
        }
        if j >= n {
            proof {
                assert(s@.skip(j as int).len() == 0);
            }
            return None;
        }
        let c = s.get_char(j);
        let ghost tail = s@.skip(j as int);
        proof {
            assert(tail[0] == c);
        }
        if c == '"' {
            proof {
                assert(scan_str(tail) == Some((Seq::<char>::empty(), 1int)));
                assert(acc@ + Seq::<char>::empty() =~= acc@);
            }
            return Some((acc, j + 1));
        }
        if c == '\\' {
            if j + 1 >= n {
                proof {
                    assert(tail.len() < 2);
                }
                return None;
            }
            let e = s.get_char(j + 1);
            proof {
                assert(tail[1] == e);
            }
            if e == '"' || e == '\\' || e == 'n' || e == 't' || e == 'r' {
                let decoded: char = if e == '"' { '"' } else if e == '\\' { '\\' }
                    else if e == 'n' { '\n' } else if e == 't' { '\t' } else { '\r' };
                proof {
                    assert(decoded == unesc2(e));
                    assert(tail.skip(2) =~= s@.skip(j + 2 as int));
                    assert(scan_str(tail) == scan_prepend(seq![decoded], 2, scan_str(s@.skip(j + 2 as int))));
                    lemma_prepend_compose(acc@, decoded, j - from, 2, scan_str(s@.skip(j + 2 as int)));
                }
                push_char(&mut acc, decoded);
                j += 2;
            } else if e == 'u' {
                if n - j < 6 {
                    proof {
                        assert(tail.len() < 6);
                    }
                    return None;
                }
                let z1 = s.get_char(j + 2);
                let z2 = s.get_char(j + 3);
                let h1 = unhex_exec(s.get_char(j + 4));
                let h2 = unhex_exec(s.get_char(j + 5));
                proof {
                    assert(tail[2] == s@[j + 2]);
                    assert(tail[3] == s@[j + 3]);
                    assert(tail[4] == s@[j + 4]);
                    assert(tail[5] == s@[j + 5]);
                }
                if z1 != '0' || z2 != '0' || h1 < 0 || h2 < 0 {
                    return None;
                }
                let v: u8 = (h1 as u8) * 16 + (h2 as u8);
                if !(v < 32 && v != 9 && v != 10 && v != 13) {
                    return None;
                }
                let decoded: char = v as char;
                proof {
                    assert(decoded as u32 == v as u32);
                    vstd::utf8::char_u32_cast(decoded, v as u32);
                    assert(((v as int) as u32) as char == decoded);
                    assert(tail.skip(6) =~= s@.skip(j + 6 as int));
                    assert(scan_str(tail) == scan_prepend(seq![decoded], 6, scan_str(s@.skip(j + 6 as int))));
                    lemma_prepend_compose(acc@, decoded, j - from, 6, scan_str(s@.skip(j + 6 as int)));
                }
                push_char(&mut acc, decoded);
                j += 6;
            } else {
                return None;
            }
        } else if (c as u32) < 32 {
            return None;
        } else {
            proof {
                assert(tail.skip(1) =~= s@.skip(j + 1 as int));
                assert(scan_str(tail) == scan_prepend(seq![c], 1, scan_str(s@.skip(j + 1 as int))));
                lemma_prepend_compose(acc@, c, j - from, 1, scan_str(s@.skip(j + 1 as int)));
            }
            push_char(&mut acc, c);
            j += 1;
        }
    }
}

/// Scanning the text `esc` wrote recovers the escaped text: the scanner
/// is a left inverse of the escaper, whatever follows the closing quote.
pub proof fn lemma_scan_esc(t: Seq<char>, rest: Seq<char>)
    ensures
        scan_str(esc(t) + seq!['"'] + rest) == Some((t, esc(t).len() as int + 1)),
    decreases t.len(),
{
    let s = esc(t) + seq!['"'] + rest;
    if t.len() == 0 {
        assert(s =~= seq!['"'] + rest);
        assert(s[0] == '"');
        assert(t =~= Seq::<char>::empty());
    } else {
        let c = t[0];
        let t2 = t.skip(1);
        assert(esc(t) == esc_char(c) + esc(t2));
        lemma_scan_esc(t2, rest);
        let s2 = esc(t2) + seq!['"'] + rest;
        if c == '"' || c == '\\' {
            assert(s[0] == '\\');
            assert(s[1] == (if c == '"' { '"' } else { '\\' }));
            assert(s.skip(2) =~= s2);
            assert(unesc2(s[1]) == c);
            assert(seq![c] + t2 =~= t);
        } else if c == '\n' || c == '\t' || c == '\r' {
            assert(s[0] == '\\');
            assert(s[1] == (if c == '\n' { 'n' } else if c == '\t' { 't' } else { 'r' }));
            assert(s.skip(2) =~= s2);
            assert(unesc2(s[1]) == c);
            assert(seq![c] + t2 =~= t);
        } else if is_ctl(c) {
            let v = (c as u32) as int;
            assert(s[0] == '\\');
            assert(s[1] == 'u');
            assert(s[2] == '0');
            assert(s[3] == '0');
            assert(s[4] == hex_digit(v / 16));
            assert(s[5] == hex_digit(v % 16));
            assert(0 <= v < 32);
            assert(0 <= v / 16 < 2);
            assert(0 <= v % 16 < 16);
            assert(unhex(hex_digit(v / 16)) == v / 16);
            assert(unhex(hex_digit(v % 16)) == v % 16);
            assert((v / 16) * 16 + v % 16 == v);
            assert('\t' as u32 == 9 && '\n' as u32 == 10 && '\r' as u32 == 13);
            assert(v != 9 && v != 10 && v != 13) by {
                if v == 9 {
                    assert(c as u32 == '\t' as u32);
                    vstd::utf8::char_u32_cast(c, c as u32);
                    vstd::utf8::char_u32_cast('\t', c as u32);
                }
                if v == 10 {
                    vstd::utf8::char_u32_cast(c, c as u32);
                    vstd::utf8::char_u32_cast('\n', c as u32);
                }
                if v == 13 {
                    vstd::utf8::char_u32_cast(c, c as u32);
                    vstd::utf8::char_u32_cast('\r', c as u32);
                }
            }
            assert(s.skip(6) =~= s2);
            assert(v as u32 == c as u32);
            vstd::utf8::char_u32_cast(c, c as u32);
            assert(((v as u32) as char) == c);
            assert(seq![c] + t2 =~= t);
        } else {
            assert(s[0] == c);
            assert(!is_ctl(c));
            assert(s.skip(1) =~= s2);
            assert(seq![c] + t2 =~= t);
        }
    }
}

// ----------------------------------------------------------------------
// Decimal numbers.
// ----------------------------------------------------------------------

pub open spec fn is_digit(c: char) -> bool {
    '0' <= c && c <= '9'
}

pub open spec fn digit_val(c: char) -> int {
    (c as u32) - ('0' as u32)
}

/// The decimal spelling of `n`, most significant digit first, no sign,
/// no leading zeros (a single `0` for zero).
pub open spec fn dec(n: nat) -> Seq<char>
    decreases n,
{
    if n < 10 { seq![hex_digit(n as int)] } else { dec(n / 10) + seq![hex_digit((n % 10) as int)] }
}

/// Numeric value of a sequence of decimal digits.
pub open spec fn dec_val(d: Seq<char>) -> nat
    decreases d.len(),
{
    if d.len() == 0 { 0 } else { dec_val(d.drop_last()) * 10 + digit_val(d.last()) as nat }
}

/// Number of leading decimal digits.
pub open spec fn digit_prefix(s: Seq<char>) -> int
    decreases s.len(),
{
    if s.len() == 0 || !is_digit(s[0]) { 0 } else { 1 + digit_prefix(s.skip(1)) }
}

/// Strict scan of a `u64`: at least one digit, no leading zero, value in
/// range; returns the value and the count of digits consumed.
pub open spec fn scan_u64(s: Seq<char>) -> Option<(u64, int)> {
    let k = digit_prefix(s);
    if k == 0 {
        None
    } else if k > 1 && s[0] == '0' {
        None
    } else if dec_val(s.take(k)) > u64::MAX {
        None
    } else {
        Some((dec_val(s.take(k)) as u64, k))
    }
}

pub proof fn lemma_digit_prefix_bound(s: Seq<char>)
    ensures
        0 <= digit_prefix(s) <= s.len(),
        forall|i: int| 0 <= i < digit_prefix(s) ==> is_digit(#[trigger] s[i]),
        digit_prefix(s) < s.len() ==> !is_digit(s[digit_prefix(s)]),
    decreases s.len(),
{
    if s.len() == 0 || !is_digit(s[0]) {
    } else {
        lemma_digit_prefix_bound(s.skip(1));
        assert forall|i: int| 0 <= i < digit_prefix(s) implies is_digit(#[trigger] s[i]) by {
            if i > 0 {
                assert(s.skip(1)[i - 1] == s[i]);
            }
        }
        if digit_prefix(s) < s.len() {
            assert(s.skip(1)[digit_prefix(s) - 1] == s[digit_prefix(s)]);
        }
    }
}

/// Appends the decimal spelling of `n` to `out`.
pub fn append_dec(out: &mut String, n: u64)
    ensures
        final(out)@ == old(out)@ + dec(n as nat),
    decreases n,
{
    if n < 10 {
        push_char(out, hex_char(n as u8));
        proof {
            assert(old(out)@.push(hex_digit(n as int)) =~= old(out)@ + dec(n as nat));
        }
    } else {
        append_dec(out, n / 10);
        push_char(out, hex_char((n % 10) as u8));
        proof {
            assert((old(out)@ + dec((n / 10) as nat)).push(hex_digit((n % 10) as int))
                =~= old(out)@ + (dec((n / 10) as nat) + seq![hex_digit((n % 10) as int)]));
        }
    }
}

proof fn lemma_dec_digits(n: nat)
    ensures
        dec(n).len() >= 1,
        forall|i: int| 0 <= i < dec(n).len() ==> is_digit(#[trigger] dec(n)[i]),
        n >= 10 ==> dec(n).len() >= 2,
        dec(n)[0] == '0' ==> n == 0,
    decreases n,
{
    if n < 10 {
        assert(is_digit(hex_digit(n as int)));
        assert(hex_digit(n as int) == '0' ==> n == 0);
    } else {
        lemma_dec_digits(n / 10);
        assert(forall|i: int| 0 <= i < dec(n).len() - 1 ==> dec(n)[i] == dec(n / 10)[i]);
        assert(is_digit(hex_digit((n % 10) as int)));
        assert(dec(n)[0] == dec(n / 10)[0]);
        assert(n / 10 > 0);
    }
}

proof fn lemma_dec_val_digits(n: nat)
    ensures
        dec_val(dec(n)) == n,
    decreases n,
{
    if n < 10 {
        let d = dec(n);
        assert(d == seq![hex_digit(n as int)]);
        assert(d.drop_last() =~= Seq::<char>::empty());
        assert(dec_val(Seq::<char>::empty()) == 0);
        assert(dec_val(d) == dec_val(d.drop_last()) * 10 + digit_val(d.last()) as nat);
        assert(digit_val(hex_digit(n as int)) == n);
    } else {
        lemma_dec_val_digits(n / 10);
        let d = dec(n);
        assert(d == dec(n / 10) + seq![hex_digit((n % 10) as int)]);
        assert(d.len() == dec(n / 10).len() + 1);
        assert(d.drop_last() =~= dec(n / 10));
        assert(d.last() == hex_digit((n % 10) as int));
        assert(dec_val(d) == dec_val(d.drop_last()) * 10 + digit_val(d.last()) as nat);
        assert(digit_val(hex_digit((n % 10) as int)) == n % 10);
    }
}

/// Parsing the spelling `dec` wrote, with any non-digit continuation,
/// recovers the number.
pub proof fn lemma_scan_dec(n: u64, rest: Seq<char>)
    requires
        rest.len() == 0 || !is_digit(rest[0]),
    ensures
        scan_u64(dec(n as nat) + rest) == Some((n, dec(n as nat).len() as int)),
{
    let d = dec(n as nat);
    let s = d + rest;
    lemma_dec_digits(n as nat);
    lemma_dec_val_digits(n as nat);
    lemma_digit_prefix_of_digits(d, rest);
    assert(digit_prefix(s) == d.len());
    assert(s.take(d.len() as int) =~= d);
    if d.len() > 1 {
        assert(s[0] == d[0]);
        assert(d[0] != '0') by {
            if d[0] == '0' {
                assert(n == 0);
                assert(d.len() == 1);
            }
        }
    }
}

proof fn lemma_digit_prefix_of_digits(d: Seq<char>, rest: Seq<char>)
    requires
        forall|i: int| 0 <= i < d.len() ==> is_digit(#[trigger] d[i]),
        rest.len() == 0 || !is_digit(rest[0]),
    ensures
        digit_prefix(d + rest) == d.len(),
    decreases d.len(),
{
    let s = d + rest;
    if d.len() == 0 {
        assert(s =~= rest);
    } else {
        assert(s[0] == d[0]);
        assert(s.skip(1) =~= d.skip(1) + rest);
        lemma_digit_prefix_of_digits(d.skip(1), rest);
    }
}

/// dec_val over a prefix extended by one digit.
proof fn lemma_dec_val_step(s: Seq<char>, j: int)
    requires
        0 <= j < s.len(),
        is_digit(s[j]),
    ensures
        dec_val(s.take(j + 1)) == dec_val(s.take(j)) * 10 + digit_val(s[j]),
{
    let d = s.take(j + 1);
    assert(d.len() == j + 1);
    assert(d.drop_last() =~= s.take(j));
    assert(d.last() == s[j]);
    assert('0' as u32 == 48 && '9' as u32 == 57);
    assert(0 <= digit_val(s[j]) <= 9);
    assert(dec_val(d) == dec_val(d.drop_last()) * 10 + digit_val(d.last()) as nat);
}

/// Appending digits never lowers the value.
proof fn lemma_dec_val_mono(s: Seq<char>, j: int, k: int)
    requires
        0 <= j <= k <= s.len(),
        forall|i: int| 0 <= i < k ==> is_digit(#[trigger] s[i]),
    ensures
        dec_val(s.take(j)) <= dec_val(s.take(k)),
    decreases k - j,
{
    if j < k {
        lemma_dec_val_step(s, k - 1);
        assert(digit_val(s[k - 1]) >= 0);
        lemma_dec_val_mono(s, j, k - 1);
    }
}

/// Scans a `u64` beginning at `from`. Agrees exactly with `scan_u64`.
pub fn scan_number(s: &str, from: usize) -> (r: Option<(u64, usize)>)
    requires
        from <= s@.len(),
    ensures
        match r {
            Some(p) => {
                &&& scan_u64(s@.skip(from as int)) == Some((p.0, p.1 - from as int))
                &&& from < p.1 <= s@.len()
            },
            None => scan_u64(s@.skip(from as int)) is None,
        },
{
    let ghost tail = s@.skip(from as int);
    proof {
        lemma_digit_prefix_bound(tail);
    }
    let ghost k = digit_prefix(tail);
    let n = s.unicode_len();
    let mut val: u64 = 0;
    let mut j: usize = from;
    loop
        invariant
            from <= j <= n,
            n == s@.len(),
            tail == s@.skip(from as int),
            k == digit_prefix(tail),
            0 <= k <= tail.len(),
            tail.len() == n - from,
            forall|i: int| 0 <= i < k ==> is_digit(#[trigger] tail[i]),
            k < tail.len() ==> !is_digit(tail[k]),
            j - from <= k,
            val == dec_val(tail.take(j - from)),
        ensures
            from <= j <= n,
            j - from == k,
            val == dec_val(tail.take(k)),
        decreases n - j,
    {
        if j >= n {
            proof {
                assert(k == n - from);
            }
            break;
        }
        let c = s.get_char(j);
        proof {
            assert(tail[j - from] == c);
        }
        if !(('0' <= c) && (c <= '9')) {
            proof {
                assert(!is_digit(c));
                assert(k == j - from);
            }
            break;
        }
        proof {
            assert(is_digit(c));
            if j - from == k {
                assert(k < tail.len() ==> !is_digit(tail[k]));
                assert(false);
            }
            assert(j - from < k);
        }
        let d: u32 = (c as u32) - ('0' as u32);
        proof {
            assert('0' as u32 == 48);
            assert(d == digit_val(c));
            assert(d <= 9);
        }
        if val > (u64::MAX - d as u64) / 10 {
            // The digits already seen overflow a u64; any longer digit
            // run is at least as large.
            proof {
                let q = (u64::MAX - d as u64) / 10;
                assert(val >= q + 1);
                assert((q + 1) * 10 > u64::MAX - d as u64) by (nonlinear_arith)
                    requires q == (u64::MAX - d as u64) / 10
                {}
                assert(val * 10 >= (q + 1) * 10) by (nonlinear_arith)
                    requires val >= q + 1
                {}
                lemma_dec_val_step(tail, j - from);
                assert(dec_val(tail.take(j - from + 1)) > u64::MAX);
                lemma_dec_val_mono(tail, j - from + 1, k);
                assert(dec_val(tail.take(k)) > u64::MAX);
            }
            return None;
        }
        proof {
            let q = (u64::MAX - d as u64) / 10;
            assert(val <= q);
            assert(val * 10 <= q * 10) by (nonlinear_arith)
                requires val <= q
            {}
            assert(q * 10 <= u64::MAX - d as u64) by (nonlinear_arith)
                requires q == (u64::MAX - d as u64) / 10
            {}
            lemma_dec_val_step(tail, j - from);
        }
        val = val * 10 + d as u64;
        j += 1;
    }
    proof {
        assert(j - from == k);
        assert(tail.take(k) == tail.take(j - from));
    }
    if j == from {
        proof {
            assert(k == 0);
        }
        return None;
    }
    if j > from + 1 && s.get_char(from) == '0' {
        proof {
            assert(tail[0] == s@[from as int]);
            assert(k > 1 && tail[0] == '0');
        }
        return None;
    }
    proof {
        assert(dec_val(tail.take(k)) == val <= u64::MAX);
        if k > 1 {
            assert(tail[0] == s@[from as int]);
            assert(tail[0] != '0');
        }
    }
    Some((val, j))
}

// ----------------------------------------------------------------------
// Fixed literals.
// ----------------------------------------------------------------------

/// Whether `s` continues with exactly `lit` at position `from`.
pub open spec fn lit_at(s: Seq<char>, from: int, lit: Seq<char>) -> bool {
    &&& 0 <= from
    &&& from + lit.len() <= s.len()
    &&& s.subrange(from, from + lit.len()) == lit
}

/// Whether `lit` is a prefix of `s`.
pub open spec fn starts_with(s: Seq<char>, lit: Seq<char>) -> bool {
    lit.len() <= s.len() && s.take(lit.len() as int) == lit
}

pub proof fn lemma_lit_at_skip(s: Seq<char>, from: int, lit: Seq<char>)
    requires
        0 <= from <= s.len(),
    ensures
        lit_at(s, from, lit) == starts_with(s.skip(from), lit),
{
    if from + lit.len() <= s.len() {
        assert(s.skip(from).take(lit.len() as int) =~= s.subrange(from, from + lit.len()));
    }
}

/// A literal prefix of a concatenation is found, and consuming it
/// leaves exactly the continuation.
pub proof fn lemma_starts_with_prefix(lit: Seq<char>, rest: Seq<char>)
    ensures
        starts_with(lit + rest, lit),
        (lit + rest).skip(lit.len() as int) == rest,
{
    assert((lit + rest).take(lit.len() as int) =~= lit);
    assert((lit + rest).skip(lit.len() as int) =~= rest);
}

// ----------------------------------------------------------------------
// Booleans.
// ----------------------------------------------------------------------

pub open spec fn bool_lit(b: bool) -> Seq<char> {
    if b { "true"@ } else { "false"@ }
}

pub open spec fn scan_bool(s: Seq<char>) -> Option<(bool, int)> {
    if starts_with(s, "true"@) { Some((true, "true"@.len() as int)) }
    else if starts_with(s, "false"@) { Some((false, "false"@.len() as int)) }
    else { None }
}

/// Appends the written form of a boolean.
pub fn append_bool(out: &mut String, b: bool)
    ensures
        final(out)@ == old(out)@ + bool_lit(b),
{
    if b {
        out.append("true");
    } else {
        out.append("false");
    }
}

/// Scans a boolean beginning at `from`. Agrees exactly with `scan_bool`.
pub fn scan_boolean(s: &str, from: usize) -> (r: Option<(bool, usize)>)
    requires
        from <= s@.len(),
    ensures
        match r {
            Some(p) => {
                &&& scan_bool(s@.skip(from as int)) == Some((p.0, p.1 - from as int))
                &&& from < p.1 <= s@.len()
            },
            None => scan_bool(s@.skip(from as int)) is None,
        },
{
    proof {
        reveal_strlit("true");
        reveal_strlit("false");
        lemma_lit_at_skip(s@, from as int, "true"@);
        lemma_lit_at_skip(s@, from as int, "false"@);
    }
    if let Some(end) = match_lit(s, from, "true") {
        return Some((true, end));
    }
    if let Some(end) = match_lit(s, from, "false") {
        return Some((false, end));
    }
    None
}

/// Scanning the text `bool_lit` wrote recovers the boolean, whatever
/// follows it.
pub proof fn lemma_scan_bool(b: bool, rest: Seq<char>)
    ensures
        scan_bool(bool_lit(b) + rest) == Some((b, bool_lit(b).len() as int)),
{
    reveal_strlit("true");
    reveal_strlit("false");
    lemma_starts_with_prefix(bool_lit(b), rest);
    if b {
    } else {
        let s = bool_lit(b) + rest;
        assert(!starts_with(s, "true"@)) by {
            if starts_with(s, "true"@) {
                assert(s.take(4)[0] == 't');
                assert(s[0] == 'f');
            }
        }
    }
}

/// Checks that `s` continues with `lit` at `from`; returns the index
/// just past it.
pub fn match_lit(s: &str, from: usize, lit: &str) -> (r: Option<usize>)
    requires
        from <= s@.len(),
    ensures
        match r {
            Some(end) => {
                &&& lit_at(s@, from as int, lit@)
                &&& end == from + lit@.len()
                &&& end <= s@.len()
            },
            None => !lit_at(s@, from as int, lit@),
        },
{
    let n = s.unicode_len();
    let m = lit.unicode_len();
    if m > n - from {
        return None;
    }
    let mut i: usize = 0;
    while i < m
        invariant
            0 <= i <= m,
            m == lit@.len(),
            n == s@.len(),
            from + m <= n,
            forall|p: int| 0 <= p < i ==> s@[from + p] == lit@[p],
        decreases m - i,
    {
        if s.get_char(from + i) != lit.get_char(i) {
            proof {
                assert(s@.subrange(from as int, from + lit@.len()) != lit@) by {
                    assert(s@.subrange(from as int, from + lit@.len())[i as int] != lit@[i as int]);
                }
            }
            return None;
        }
        i += 1;
    }
    proof {
        assert(s@.subrange(from as int, from + lit@.len()) =~= lit@);
    }
    Some(from + m)
}

} // verus!
