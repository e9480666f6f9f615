//! Parsing and formatting logic of a machine-health dashboard: the
//! calendar and JSON helpers here, the text parsers of the collectors, the
//! plain-text layout helpers and the live view's page and key handling.
pub mod calendar;
pub mod collectors;
pub mod live;
pub mod logging;
pub mod render;
pub mod text;

use vstd::prelude::*;

use crate::calendar::{
    days_from_civil, lemma_civil_of_era, lemma_days_from_civil_injective, valid_date,
};
use crate::text::{
    char_is_control, chars_of, dec, find_str, find_sub, is_control, lemma_find_sub_found,
    pad_left, parse_i64, parse_i64_spec, push_char, push_dec, push_dec_padded, push_int_padded,
    zero_padded,
};

verus! {

/// `y`-`m`-`d` is the date `days` days after 1970-01-01, its year cut
/// to `i32` as `as` does; for counts within 2^37 days of the epoch the
/// year is exact.
pub open spec fn is_date_of(days: int, y: i32, m: u32, d: u32) -> bool {
    exists|yy: int|
        #![trigger days_from_civil(yy, m as int, d as int)]
        {
            &&& valid_date(yy, m as int, d as int)
            &&& days_from_civil(yy, m as int, d as int) == days
            &&& y == yy as i32
            &&& (-0x20_0000_0000 <= days <= 0x20_0000_0000 ==> y == yy)
        }
}

/// The date `era * 146097 + doe` days after 0000-03-01: day `doe` of
/// the 400-year cycle number `era`.
fn civil_in_era(era: i64, doe: i64) -> (r: (i64, i64, i64))
    requires
        0 <= doe <= 146_096,
        -0x10_0000_0000_0000 <= era <= 0x10_0000_0000_0000,
    ensures
        valid_date(r.0 as int, r.1 as int, r.2 as int),
        days_from_civil(r.0 as int, r.1 as int, r.2 as int) == era * 146_097 + doe - 719_468,
        era * 400 <= r.0 <= era * 400 + 400,
{
    let yoe = (doe - doe / 1_460 + doe / 36_524 - doe / 146_096) / 365;
    let y = yoe + era * 400;
    let doy = doe - (365 * yoe + yoe / 4 - yoe / 100);
    let mp = (5 * doy + 2) / 153;
    let d = doy - (153 * mp + 2) / 5 + 1;
    let m = mp + if mp < 10 { 3 } else { -9 };
    let year = y + if m <= 2 { 1 } else { 0 };
    proof {
        lemma_civil_of_era(
            era as int,
            doe as int,
            yoe as int,
            doy as int,
            mp as int,
            d as int,
            m as int,
            year as int,
        );
    }
    (year, m, d)
}

/// The calendar date `days_since_epoch` days after 1970-01-01, as
/// (year, month, day); `None` only where the day count overflows on the
/// way. The year is the true year cut to `i32` as `as` does, which is
/// the true year itself for every count within 2^37 days of the epoch.
pub fn civil_from_days(days_since_epoch: i64) -> (r: Option<(i32, u32, u32)>)
    ensures
        r is Some <==> days_since_epoch + 719_468 <= i64::MAX,
        r matches Some((y, m, d)) ==> is_date_of(days_since_epoch as int, y, m, d),
{
    let z = match days_since_epoch.checked_add(719_468) {
        Some(z) => z,
        None => return None,
    };
    let era = if z >= 0 { z } else { z - 146_096 } / 146_097;
    proof {
        assert(era * 146_097 <= z < era * 146_097 + 146_097);
    }
    let doe = z - era * 146_097;
    let (year, m, d) = civil_in_era(era, doe);
    let ry = #[verifier::truncate] (year as i32);
    let rm = m as u32;
    let rd = d as u32;
    proof {
        let yy = year as int;
        assert(rm as int == m as int && rd as int == d as int);
        assert(valid_date(yy, rm as int, rd as int));
        assert(days_from_civil(yy, rm as int, rd as int) == days_since_epoch);
        if -0x20_0000_0000 <= days_since_epoch <= 0x20_0000_0000 {
            assert(-1_000_000 <= era <= 1_000_000);
            assert(ry == yy);
        }
        assert(ry == yy as i32);
        assert({
            &&& valid_date(yy, rm as int, rd as int)
            &&& days_from_civil(yy, rm as int, rd as int) == days_since_epoch
            &&& ry == yy as i32
            &&& (-0x20_0000_0000 <= days_since_epoch <= 0x20_0000_0000 ==> ry == yy)
        });
        assert(is_date_of(days_since_epoch as int, ry, rm, rd));
    }
    Some((ry, rm, rd))
}


/// The date `days` days after 1970-01-01 (the one date with that day
/// count, see `lemma_days_from_civil_injective`).
pub open spec fn civil_date(days: int) -> (int, int, int) {
    choose|t: (int, int, int)| valid_date(t.0, t.1, t.2) && days_from_civil(t.0, t.1, t.2) == days
}

/// `YYYY-MM-DD` for the date `days` days after 1970-01-01.
pub open spec fn date_text(days: int) -> Seq<char> {
    let t = civil_date(days);
    zero_padded(t.0, 4) + seq!['-'] + pad_left(dec(t.1 as nat), 2, '0') + seq!['-'] + pad_left(
        dec(t.2 as nat),
        2,
        '0',
    )
}

/// What `parse_wmi_date` gives for `v`: the number of milliseconds between
/// the first `/Date(` and the next `)/`, read as an `i64`, then the UTC
/// calendar day of that instant.
pub open spec fn wmi_date(v: Seq<char>) -> Option<Seq<char>> {
    match find_sub(v, "/Date("@) {
        None => None,
        Some(i) => {
            let rest = v.skip(i + "/Date("@.len());
            match find_sub(rest, ")/"@) {
                None => None,
                Some(j) => match parse_i64_spec(rest.take(j)) {
                    None => None,
                    Some(ms) => Some(date_text((ms as int / 1000) / 86400)),
                },
            }
        }
    }
}

/// Appends `y-m-d` with the year zero padded to 4 and month and day to 2
/// characters.
fn push_date(out: &mut String, y: i32, m: u32, d: u32)
    ensures
        final(out)@ == old(out)@ + zero_padded(y as int, 4) + seq!['-'] + pad_left(
            dec(m as nat),
            2,
            '0',
        ) + seq!['-'] + pad_left(dec(d as nat), 2, '0'),
{
    push_int_padded(out, y as i64, 4);
    push_char(out, '-');
    push_dec_padded(out, m as u64, 2);
    push_char(out, '-');
    push_dec_padded(out, d as u64, 2);
    proof {
        assert(out@ =~= old(out)@ + zero_padded(y as int, 4) + seq!['-'] + pad_left(
            dec(m as nat),
            2,
            '0',
        ) + seq!['-'] + pad_left(dec(d as nat), 2, '0'));
    }
}

/// Reads a WMI JSON date such as `/Date(1587340800000)/` as the UTC day
/// `2020-04-20`.
pub fn parse_wmi_date(value: &str) -> (r: Option<String>)
    ensures
        r matches Some(s) ==> wmi_date(value@) == Some(s@),
        r is None ==> wmi_date(value@) is None,
{
    let v = chars_of(value);
    let open_pat = chars_of("/Date(");
    let close_pat = chars_of(")/");
    let ghost s = v@;
    proof {
        assert(v@.subrange(0, v@.len() as int) =~= v@);
    }
    let i = match find_str(v.as_slice(), 0, v.len(), open_pat.as_slice()) {
        Some(i) => i,
        None => return None,
    };
    proof {
        reveal_strlit("/Date(");
        reveal_strlit(")/");
        lemma_find_sub_found(s, "/Date("@);
    }
    let start = i + 6;
    let ghost rest = s.skip(i + 6);
    proof {
        assert(s.skip(i + 6) =~= v@.subrange(start as int, v@.len() as int));
    }
    let end = match find_str(v.as_slice(), start, v.len(), close_pat.as_slice()) {
        Some(e) => e,
        None => return None,
    };
    proof {
        assert(rest.take(end - start) =~= v@.subrange(start as int, end as int));
    }
    let millis = match parse_i64(v.as_slice(), start, end) {
        Some(ms) => ms,
        None => return None,
    };
    let secs = match millis.checked_div_euclid(1000) {
        Some(q) => q,
        None => return None,
    };
    let days = match secs.checked_div_euclid(86_400) {
        Some(q) => q,
        None => return None,
    };
    match civil_from_days(days) {
        Some((year, month, day)) => {
            let mut out = String::new();
            push_date(&mut out, year, month, day);
            proof {
                let yy = choose|yy: int|
                    #![trigger days_from_civil(yy, month as int, day as int)]
                    {
                        &&& valid_date(yy, month as int, day as int)
                        &&& days_from_civil(yy, month as int, day as int) == days
                        &&& year == yy as i32
                        &&& (-0x20_0000_0000 <= days <= 0x20_0000_0000 ==> year == yy)
                    };
                assert(-0x20_0000_0000 <= days <= 0x20_0000_0000);
                let t = civil_date(days as int);
                assert(valid_date(t.0, t.1, t.2) && days_from_civil(t.0, t.1, t.2) == days);
                lemma_days_from_civil_injective(t.0, t.1, t.2, yy, month as int, day as int);
                assert(out@ =~= date_text(days as int));
            }
            Some(out)
        },
        None => None,
    }
}


/// The lower-case hexadecimal digit for `d` in `0..16`.
pub open spec fn hex_digit(d: int) -> char {
    if d < 10 {
        (('0' as u32) + d) as char
    } else {
        (('a' as u32) + d - 10) as char
    }
}

/// `u` as four lower-case hexadecimal digits (`{:04x}` for `u < 0x10000`).
pub open spec fn hex4(u: int) -> Seq<char> {
    seq![
        hex_digit((u / 4096) % 16),
        hex_digit((u / 256) % 16),
        hex_digit((u / 16) % 16),
        hex_digit(u % 16),
    ]
}

/// How `json_escape` writes one character.
pub open spec fn json_escape_char(c: char) -> Seq<char> {
    if c == '"' {
        seq!['\\', '"']
    } else if c == '\\' {
        seq!['\\', '\\']
    } else if c == '\n' {
        seq!['\\', 'n']
    } else if c == '\r' {
        seq!['\\', 'r']
    } else if c == '\t' {
        seq!['\\', 't']
    } else if is_control(c) {
        seq!['\\', 'u'] + hex4(c as int)
    } else {
        seq![c]
    }
}

/// `s` escaped for the inside of a JSON string, character by character.
pub open spec fn json_escaped(s: Seq<char>) -> Seq<char> {
    s.map_values(|c: char| json_escape_char(c)).flatten()
}

fn hex_char(d: u32) -> (c: char)
    requires
        d < 16,
    ensures
        c == hex_digit(d as int),
{
    if d < 10 {
        char_from_u32_digit(('0' as u32) + d)
    } else {
        char_from_u32_digit(('a' as u32) + d - 10)
    }
}

/// The ASCII character with code `u`.
fn char_from_u32_digit(u: u32) -> (c: char)
    requires
        0x30 <= u <= 0x39 || 0x61 <= u <= 0x66,
    ensures
        c == u as char,
{
    if u == 0x30 { '0' }
    else if u == 0x31 { '1' }
    else if u == 0x32 { '2' }
    else if u == 0x33 { '3' }
    else if u == 0x34 { '4' }
    else if u == 0x35 { '5' }
    else if u == 0x36 { '6' }
    else if u == 0x37 { '7' }
    else if u == 0x38 { '8' }
    else if u == 0x39 { '9' }
    else if u == 0x61 { 'a' }
    else if u == 0x62 { 'b' }
    else if u == 0x63 { 'c' }
    else if u == 0x64 { 'd' }
    else if u == 0x65 { 'e' }
    else { 'f' }
}

/// Appends `c` as `json_escape` writes it.
fn push_json_char(out: &mut String, c: char)
    ensures
        final(out)@ == old(out)@ + json_escape_char(c),
{
    if c == '"' {
        push_char(out, '\\');
        push_char(out, '"');
    } else if c == '\\' {
        push_char(out, '\\');
        push_char(out, '\\');
    } else if c == '\n' {
        push_char(out, '\\');
        push_char(out, 'n');
    } else if c == '\r' {
        push_char(out, '\\');
        push_char(out, 'r');
    } else if c == '\t' {
        push_char(out, '\\');
        push_char(out, 't');
    } else if char_is_control(c) {
        let u = c as u32;
        push_char(out, '\\');
        push_char(out, 'u');
        push_char(out, hex_char((u / 4096) % 16));
        push_char(out, hex_char((u / 256) % 16));
        push_char(out, hex_char((u / 16) % 16));
        push_char(out, hex_char(u % 16));
    } else {
        push_char(out, c);
    }
    proof {
        assert(out@ =~= old(out)@ + json_escape_char(c));
    }
}

/// Escapes `s` for use inside a JSON string literal: quote, backslash,
/// newline, carriage return and tab get their short escapes, the other
/// control characters `\u00XX`, and everything else stays as it is.
pub fn json_escape(s: &str) -> (out: String)
    ensures
        out@ == json_escaped(s@),
{
    let v = chars_of(s);
    let mut out = String::new();
    let mut i: usize = 0;
    while i < v.len()
        invariant
            0 <= i <= v@.len(),
            v@ == s@,
            out@ == json_escaped(v@.take(i as int)),
        decreases v@.len() - i,
    {
        let c = v[i];
        let ghost before = out@;
        push_json_char(&mut out, c);
        proof {
            let f = |c: char| json_escape_char(c);
            assert(v@.take(i + 1) =~= v@.take(i as int).push(c));
            assert(v@.take(i + 1).map_values(f) =~= v@.take(i as int).map_values(f).push(
                json_escape_char(c),
            ));
            v@.take(i as int).map_values(f).lemma_flatten_push(json_escape_char(c));
        }
        i = i + 1;
    }
    proof {
        assert(v@.take(v@.len() as int) =~= v@);
    }
    out
}


/// The value of a lower-case hexadecimal digit, or -1.
pub open spec fn hex_value(c: char) -> int {
    if '0' <= c && c <= '9' {
        (c as int) - ('0' as int)
    } else if 'a' <= c && c <= 'f' {
        (c as int) - ('a' as int) + 10
    } else {
        -1
    }
}

/// Reads back the escapes that `json_escape` writes: `\"`, `\\`, `\n`,
/// `\r`, `\t` and `\u` with four lower-case hexadecimal digits; any other
/// backslash makes the text unreadable.
pub open spec fn json_unescape(t: Seq<char>) -> Option<Seq<char>>
    decreases t.len(),
{
    if t.len() == 0 {
        Some(seq![])
    } else if t[0] != '\\' {
        match json_unescape(t.drop_first()) {
            Some(r) => Some(seq![t[0]] + r),
            None => None,
        }
    } else if t.len() >= 2 && (t[1] == '"' || t[1] == '\\' || t[1] == 'n' || t[1] == 'r' || t[1]
        == 't') {
        let c = if t[1] == 'n' {
            '\n'
        } else if t[1] == 'r' {
            '\r'
        } else if t[1] == 't' {
            '\t'
        } else {
            t[1]
        };
        match json_unescape(t.skip(2)) {
            Some(r) => Some(seq![c] + r),
            None => None,
        }
    } else if t.len() >= 6 && t[1] == 'u' && hex_value(t[2]) >= 0 && hex_value(t[3]) >= 0
        && hex_value(t[4]) >= 0 && hex_value(t[5]) >= 0 {
        let u = hex_value(t[2]) * 4096 + hex_value(t[3]) * 256 + hex_value(t[4]) * 16
            + hex_value(t[5]);
        match json_unescape(t.skip(6)) {
            Some(r) => Some(seq![u as char] + r),
            None => None,
        }
    } else {
        None
    }
}

proof fn lemma_hex_digit(k: int)
    requires
        0 <= k < 16,
    ensures
        hex_value(hex_digit(k)) == k,
{
}

/// One escaped character in front of more escaped text reads back.
proof fn lemma_json_unescape_char(c: char, rest: Seq<char>)
    ensures
        json_unescape(json_escape_char(c) + rest) == match json_unescape(rest) {
            Some(r) => Some(seq![c] + r),
            None => None::<Seq<char>>,
        },
{
    let t = json_escape_char(c) + rest;
    if c == '"' || c == '\\' || c == '\n' || c == '\r' || c == '\t' {
        assert(t.skip(2) =~= rest);
    } else if is_control(c) {
        let u = c as int;
        lemma_hex_digit((u / 4096) % 16);
        lemma_hex_digit((u / 256) % 16);
        lemma_hex_digit((u / 16) % 16);
        lemma_hex_digit(u % 16);
        assert(t.skip(6) =~= rest);
        assert(hex_value(t[2]) * 4096 + hex_value(t[3]) * 256 + hex_value(t[4]) * 16 + hex_value(
            t[5],
        ) == u);
    } else {
        assert(t.drop_first() =~= rest);
    }
}

/// `json_escape` loses nothing: its output reads back as the input.
pub proof fn lemma_json_escape_reads_back(s: Seq<char>)
    ensures
        json_unescape(json_escaped(s)) == Some(s),
    decreases s.len(),
{
    if s.len() > 0 {
        let f = |c: char| json_escape_char(c);
        assert(s.map_values(f).drop_first() =~= s.drop_first().map_values(f));
        assert(json_escaped(s) == json_escape_char(s[0]) + json_escaped(s.drop_first()));
        lemma_json_escape_reads_back(s.drop_first());
        lemma_json_unescape_char(s[0], json_escaped(s.drop_first()));
        assert(seq![s[0]] + s.drop_first() =~= s);
    } else {
        assert(json_escaped(s) =~= Seq::<char>::empty());
    }
}

/// Text with no quote, backslash or control character needs no escape:
/// `json_escape` leaves it as it is.
pub proof fn lemma_json_escape_plain(s: Seq<char>)
    requires
        forall|i: int| 0 <= i < s.len() ==> #[trigger] s[i] != '"' && s[i] != '\\' && !is_control(s[i]),
    ensures
        json_escaped(s) == s,
    decreases s.len(),
{
    if s.len() > 0 {
        let f = |c: char| json_escape_char(c);
        assert(s.map_values(f).drop_first() =~= s.drop_first().map_values(f));
        assert(json_escaped(s) == json_escape_char(s[0]) + json_escaped(s.drop_first()));
        assert forall|i: int| 0 <= i < s.drop_first().len() implies #[trigger] s.drop_first()[i] != '"'
            && s.drop_first()[i] != '\\' && !is_control(s.drop_first()[i]) by {
            assert(s.drop_first()[i] == s[i + 1]);
        }
        lemma_json_escape_plain(s.drop_first());
        assert(s[0] != '\n' && s[0] != '\r' && s[0] != '\t');
        assert(json_escape_char(s[0]) == seq![s[0]]);
        assert(seq![s[0]] + s.drop_first() =~= s);
    } else {
        assert(json_escaped(s) =~= Seq::<char>::empty());
    }
}

/// Two strings with the same escaped form are the same string.
pub proof fn lemma_json_escape_injective(a: Seq<char>, b: Seq<char>)
    requires
        json_escaped(a) == json_escaped(b),
    ensures
        a == b,
{
    lemma_json_escape_reads_back(a);
    lemma_json_escape_reads_back(b);
}

/// The escaped form holds no control character, so it fits on one line
/// inside a JSON string.
pub proof fn lemma_json_escaped_no_control(s: Seq<char>)
    ensures
        forall|i: int| 0 <= i < json_escaped(s).len() ==> !is_control(#[trigger] json_escaped(s)[i]),
    decreases s.len(),
{
    if s.len() > 0 {
        let f = |c: char| json_escape_char(c);
        assert(s.map_values(f).drop_first() =~= s.drop_first().map_values(f));
        lemma_json_escaped_no_control(s.drop_first());
        let e = json_escape_char(s[0]);
        let r = json_escaped(s.drop_first());
        assert(json_escaped(s) == e + r);
        assert forall|i: int| 0 <= i < json_escaped(s).len() implies !is_control(
            #[trigger] json_escaped(s)[i],
        ) by {
            if i < e.len() {
                let c = s[0];
                if is_control(c) && c != '\n' && c != '\r' && c != '\t' {
                    let u = c as int;
                    assert(0 <= (u / 4096) % 16 < 16);
                }
            } else {
                assert(json_escaped(s)[i] == r[i - e.len()]);
            }
        }
    } else {
        assert(json_escaped(s) =~= Seq::<char>::empty());
    }
}


/// How `fmt_duration` writes `s` whole seconds: days, hours and minutes
/// from one day up, hours and minutes from one hour up, else minutes and
/// seconds.
pub open spec fn duration_text(s: nat) -> Seq<char> {
    let days = s / 86400;
    let hours = (s % 86400) / 3600;
    let minutes = (s % 3600) / 60;
    let secs = s % 60;
    if days > 0 {
        dec(days) + seq!['d', ' '] + dec(hours) + seq!['h', ' '] + dec(minutes) + seq!['m']
    } else if hours > 0 {
        dec(hours) + seq!['h', ' '] + dec(minutes) + seq!['m']
    } else {
        dec(minutes) + seq!['m', ' '] + dec(secs) + seq!['s']
    }
}

/// An uptime of `seconds` whole seconds for humans, such as `1d 1h 1m`.
pub fn fmt_duration(seconds: u64) -> (out: String)
    ensures
        out@ == duration_text(seconds as nat),
{
    let days = seconds / 86_400;
    let hours = (seconds % 86_400) / 3_600;
    let minutes = (seconds % 3_600) / 60;
    let secs = seconds % 60;
    let mut out = String::new();
    if days > 0 {
        push_dec(&mut out, days);
        push_char(&mut out, 'd');
        push_char(&mut out, ' ');
        push_dec(&mut out, hours);
        push_char(&mut out, 'h');
        push_char(&mut out, ' ');
        push_dec(&mut out, minutes);
        push_char(&mut out, 'm');
    } else if hours > 0 {
        push_dec(&mut out, hours);
        push_char(&mut out, 'h');
        push_char(&mut out, ' ');
        push_dec(&mut out, minutes);
        push_char(&mut out, 'm');
    } else {
        push_dec(&mut out, minutes);
        push_char(&mut out, 'm');
        push_char(&mut out, ' ');
        push_dec(&mut out, secs);
        push_char(&mut out, 's');
    }
    proof {
        assert(out@ =~= duration_text(seconds as nat));
    }
    out
}

} // verus!
