//! What the collectors make of the text that the system hands them:
//! `/proc` and `/sys` files, `df`, `nvidia-smi`, PowerShell and `netsh`
//! output. Reading the files and running the commands happens outside;
//! each function here takes the text and gives the values.
use vstd::prelude::*;

use crate::render::{join, lemma_join_push, pair_views};
use crate::text::{
    chars_of, find_char, find_str, find_sub, has_prefix, line_ranges, lines, pieces,
    parse_u32, parse_u32_spec, parse_u64, parse_u64_spec, ranges_within, range_eq, split_once, string_of_range,
    push_char, push_range, split_on, split_ranges, split_str, split_str_ranges, strip_prefix, trim, trim_range, word_ranges,
    words,
};

verus! {

/// The values that `f` gives for the items of `s`, keeping only the
/// `Some` ones, in order (`Iterator::filter_map`).
pub open spec fn filter_map<A, B>(s: Seq<A>, f: spec_fn(A) -> Option<B>) -> Seq<B>
    decreases s.len(),
{
    if s.len() == 0 {
        seq![]
    } else {
        let rest = filter_map(s.drop_last(), f);
        match f(s.last()) {
            Some(b) => rest.push(b),
            None => rest,
        }
    }
}

/// One more item for `filter_map`.
pub proof fn lemma_filter_map_push<A, B>(s: Seq<A>, x: A, f: spec_fn(A) -> Option<B>)
    ensures
        filter_map(s.push(x), f) == match f(x) {
            Some(b) => filter_map(s, f).push(b),
            None => filter_map(s, f),
        },
{
    assert(s.push(x).drop_last() =~= s);
}

/// A line `key=value` as a trimmed pair.
pub open spec fn eq_pair(l: Seq<char>) -> Option<(Seq<char>, Seq<char>)> {
    match split_once(l, '=') {
        Some((k, v)) => Some((trim(k), trim(v))),
        None => None,
    }
}

/// The `key=value` lines of PowerShell output as trimmed pairs.
pub open spec fn powershell_pairs_of(text: Seq<char>) -> Seq<(Seq<char>, Seq<char>)> {
    filter_map(lines(text), |l: Seq<char>| eq_pair(l))
}

/// The trimmed pair around the first `sep` in `v[a..b]`, if any.
fn split_pair(v: &[char], a: usize, b: usize, sep: char) -> (r: Option<(String, String)>)
    requires
        a <= b <= v@.len(),
    ensures
        match split_once(v@.subrange(a as int, b as int), sep) {
            Some((k, x)) => r matches Some(p) && p.0@ == trim(k) && p.1@ == trim(x),
            None => r is None,
        },
{
    let i = find_char(v, a, b, sep);
    let ghost l = v@.subrange(a as int, b as int);
    if i == b {
        return None;
    }
    let (ka, kb) = trim_range(v, a, i);
    let (va, vb) = trim_range(v, i + 1, b);
    proof {
        assert(l.take(i - a) =~= v@.subrange(a as int, i as int));
        assert(l.skip(i - a + 1) =~= v@.subrange(i + 1, b as int));
    }
    Some((string_of_range(v, ka, kb), string_of_range(v, va, vb)))
}

/// The `key=value` lines that PowerShell printed, as trimmed pairs.
pub fn powershell_pairs(text: &str) -> (out: Vec<(String, String)>)
    ensures
        pair_views(out@) == powershell_pairs_of(text@),
{
    let v = chars_of(text);
    let ranges = line_ranges(v.as_slice(), 0, v.len());
    let ghost f = |l: Seq<char>| eq_pair(l);
    let ghost ls = lines(text@);
    proof {
        assert(v@.subrange(0, v@.len() as int) =~= v@);
    }
    let mut out: Vec<(String, String)> = Vec::new();
    let mut i: usize = 0;
    while i < ranges.len()
        invariant
            0 <= i <= ranges@.len(),
            v@ == text@,
            f == (|l: Seq<char>| eq_pair(l)),
            ls == lines(text@),
            pieces(v@, ranges@) == ls,
            ranges_within(ranges@, 0, v@.len() as int),
            pair_views(out@) == filter_map(ls.take(i as int), f),
        decreases ranges@.len() - i,
    {
        let (a, b) = ranges[i];
        proof {
            assert(ranges_within(ranges@, 0, v@.len() as int));
            assert(0 <= ranges@[i as int].0 <= ranges@[i as int].1 <= v@.len());
            assert(ls[i as int] == v@.subrange(a as int, b as int));
            assert(ls.take(i + 1) =~= ls.take(i as int).push(ls[i as int]));
            lemma_filter_map_push(ls.take(i as int), ls[i as int], f);
        }
        let ghost before = out@;
        match split_pair(v.as_slice(), a, b, '=') {
            Some(p) => {
                out.push(p);
                proof {
                    assert(pair_views(out@) =~= pair_views(before).push((p.0@, p.1@)));
                }
            },
            None => {},
        }
        i = i + 1;
    }
    proof {
        assert(ls.take(ranges@.len() as int) =~= ls);
    }
    out
}


/// The label under which the Wi-Fi view shows a `netsh` field, if it
/// shows it at all.
pub open spec fn netsh_label(key: Seq<char>) -> Option<Seq<char>> {
    if key == "SSID"@ {
        Some("SSID"@)
    } else if key == "State"@ {
        Some("State"@)
    } else if key == "Signal"@ {
        Some("Signal"@)
    } else if key == "Radio type"@ {
        Some("Radio"@)
    } else if key == "Receive rate (Mbps)"@ {
        Some("Rx Mbps"@)
    } else if key == "Transmit rate (Mbps)"@ {
        Some("Tx Mbps"@)
    } else {
        None
    }
}

/// The Wi-Fi view shows exactly the six `netsh` keys SSID, State, Signal,
/// Radio type, Receive rate (Mbps) and Transmit rate (Mbps), as SSID,
/// State, Signal, Radio, Rx Mbps and Tx Mbps; no two keys share a label.
pub proof fn lemma_netsh_labels(k1: Seq<char>, k2: Seq<char>)
    ensures
        netsh_label("SSID"@) == Some("SSID"@),
        netsh_label("State"@) == Some("State"@),
        netsh_label("Signal"@) == Some("Signal"@),
        netsh_label("Radio type"@) == Some("Radio"@),
        netsh_label("Receive rate (Mbps)"@) == Some("Rx Mbps"@),
        netsh_label("Transmit rate (Mbps)"@) == Some("Tx Mbps"@),
        netsh_label(k1) is Some <==> (k1 == "SSID"@ || k1 == "State"@ || k1 == "Signal"@ || k1
            == "Radio type"@ || k1 == "Receive rate (Mbps)"@ || k1 == "Transmit rate (Mbps)"@),
        netsh_label(k1) is Some && netsh_label(k1) == netsh_label(k2) ==> k1 == k2,
{
    reveal_strlit("SSID");
    reveal_strlit("State");
    reveal_strlit("Signal");
    reveal_strlit("Radio type");
    reveal_strlit("Radio");
    reveal_strlit("Receive rate (Mbps)");
    reveal_strlit("Transmit rate (Mbps)");
    reveal_strlit("Rx Mbps");
    reveal_strlit("Tx Mbps");
    let keys = seq!["SSID"@, "State"@, "Signal"@, "Radio type"@, "Receive rate (Mbps)"@, "Transmit rate (Mbps)"@];
    assert(keys[0] != keys[1] && keys[0] != keys[2] && keys[1] != keys[2]) by {
        assert(keys[0][1] != keys[1][1]);
        assert(keys[0].len() != keys[2].len());
        assert(keys[1].len() != keys[2].len());
    }
    assert("Radio type"@ != "State"@ && "Radio type"@ != "SSID"@ && "Radio type"@ != "Signal"@) by {
        assert("Radio type"@.len() == 10);
    }
    assert("Receive rate (Mbps)"@ != "Transmit rate (Mbps)"@) by {
        assert("Receive rate (Mbps)"@[0] != "Transmit rate (Mbps)"@[0]);
    }
    assert("Receive rate (Mbps)"@.len() == 19 && "Transmit rate (Mbps)"@.len() == 20);
    assert("SSID"@.len() == 4 && "State"@.len() == 5 && "Signal"@.len() == 6 && "Radio"@.len() == 5);
    assert("Rx Mbps"@.len() == 7 && "Tx Mbps"@.len() == 7);
    assert("State"@ != "Radio"@) by {
        assert("State"@[0] != "Radio"@[0]);
    }
    assert("Rx Mbps"@ != "Tx Mbps"@) by {
        assert("Rx Mbps"@[0] != "Tx Mbps"@[0]);
    }
}

/// A `netsh` line `key : value` whose key the Wi-Fi view shows, as
/// (label, trimmed value).
pub open spec fn netsh_field(l: Seq<char>) -> Option<(Seq<char>, Seq<char>)> {
    match split_once(l, ':') {
        Some((k, v)) => match netsh_label(trim(k)) {
            Some(label) => Some((label, trim(v))),
            None => None,
        },
        None => None,
    }
}

/// The Wi-Fi fields of `netsh wlan show interfaces` output.
pub open spec fn netsh_wifi_pairs_of(text: Seq<char>) -> Seq<(Seq<char>, Seq<char>)> {
    filter_map(lines(text), |l: Seq<char>| netsh_field(l))
}

/// The label for the key `v[a..b]`.
fn netsh_label_of(v: &[char], a: usize, b: usize) -> (r: Option<String>)
    requires
        a <= b <= v@.len(),
    ensures
        match netsh_label(v@.subrange(a as int, b as int)) {
            Some(l) => r matches Some(s) && s@ == l,
            None => r is None,
        },
{
    let k_ssid = chars_of("SSID");
    let k_state = chars_of("State");
    let k_signal = chars_of("Signal");
    let k_radio = chars_of("Radio type");
    let k_rx = chars_of("Receive rate (Mbps)");
    let k_tx = chars_of("Transmit rate (Mbps)");
    if range_eq(v, a, b, k_ssid.as_slice()) {
        Some(String::from_str("SSID"))
    } else if range_eq(v, a, b, k_state.as_slice()) {
        Some(String::from_str("State"))
    } else if range_eq(v, a, b, k_signal.as_slice()) {
        Some(String::from_str("Signal"))
    } else if range_eq(v, a, b, k_radio.as_slice()) {
        Some(String::from_str("Radio"))
    } else if range_eq(v, a, b, k_rx.as_slice()) {
        Some(String::from_str("Rx Mbps"))
    } else if range_eq(v, a, b, k_tx.as_slice()) {
        Some(String::from_str("Tx Mbps"))
    } else {
        None
    }
}

/// The Wi-Fi fields that `netsh wlan show interfaces` printed, under the
/// labels the Wi-Fi view uses.
pub fn netsh_wifi_pairs(text: &str) -> (out: Vec<(String, String)>)
    ensures
        pair_views(out@) == netsh_wifi_pairs_of(text@),
{
    let v = chars_of(text);
    let ranges = line_ranges(v.as_slice(), 0, v.len());
    let ghost f = |l: Seq<char>| netsh_field(l);
    let ghost ls = lines(text@);
    proof {
        assert(v@.subrange(0, v@.len() as int) =~= v@);
    }
    let mut out: Vec<(String, String)> = Vec::new();
    let mut i: usize = 0;
    while i < ranges.len()
        invariant
            0 <= i <= ranges@.len(),
            v@ == text@,
            f == (|l: Seq<char>| netsh_field(l)),
            ls == lines(text@),
            pieces(v@, ranges@) == ls,
            ranges_within(ranges@, 0, v@.len() as int),
            pair_views(out@) == filter_map(ls.take(i as int), f),
        decreases ranges@.len() - i,
    {
        let (a, b) = ranges[i];
        proof {
            assert(0 <= ranges@[i as int].0 <= ranges@[i as int].1 <= v@.len());
            assert(ls[i as int] == v@.subrange(a as int, b as int));
            assert(ls.take(i + 1) =~= ls.take(i as int).push(ls[i as int]));
            lemma_filter_map_push(ls.take(i as int), ls[i as int], f);
        }
        let ghost before = out@;
        let ghost l = v@.subrange(a as int, b as int);
        let c = find_char(v.as_slice(), a, b, ':');
        if c < b {
            let (ka, kb) = trim_range(v.as_slice(), a, c);
            proof {
                assert(l.take(c - a) =~= v@.subrange(a as int, c as int));
                assert(l.skip(c - a + 1) =~= v@.subrange(c + 1, b as int));
            }
            match netsh_label_of(v.as_slice(), ka, kb) {
                Some(label) => {
                    let (va, vb) = trim_range(v.as_slice(), c + 1, b);
                    let value = string_of_range(v.as_slice(), va, vb);
                    out.push((label, value));
                    proof {
                        assert(pair_views(out@) =~= pair_views(before).push((label@, value@)));
                    }
                },
                None => {},
            }
        }
        i = i + 1;
    }
    proof {
        assert(ls.take(ranges@.len() as int) =~= ls);
    }
    out
}


/// The first value that `f` gives for an item of `s`
/// (`Iterator::find_map`).
pub open spec fn first_some<A, B>(s: Seq<A>, f: spec_fn(A) -> Option<B>) -> Option<B>
    decreases s.len(),
{
    if s.len() == 0 {
        None
    } else {
        match f(s[0]) {
            Some(b) => Some(b),
            None => first_some(s.drop_first(), f),
        }
    }
}

/// Items on which `f` gives nothing can be skipped.
pub proof fn lemma_first_some_skip<A, B>(s: Seq<A>, f: spec_fn(A) -> Option<B>, i: int)
    requires
        0 <= i <= s.len(),
        forall|j: int| 0 <= j < i ==> f(#[trigger] s[j]) is None,
    ensures
        first_some(s, f) == first_some(s.skip(i), f),
    decreases i,
{
    if i > 0 {
        assert(s.skip(1) =~= s.drop_first());
        assert forall|j: int| 0 <= j < i - 1 implies f(#[trigger] s.drop_first()[j]) is None by {
            assert(s.drop_first()[j] == s[j + 1]);
        }
        lemma_first_some_skip(s.drop_first(), f, i - 1);
        assert(s.drop_first().skip(i - 1) =~= s.skip(i));
    } else {
        assert(s.skip(0) =~= s);
    }
}

/// `s` without leading copies of `c`.
pub open spec fn trim_char_start(s: Seq<char>, c: char) -> Seq<char>
    decreases s.len(),
{
    if s.len() > 0 && s[0] == c {
        trim_char_start(s.drop_first(), c)
    } else {
        s
    }
}

/// `s` without trailing copies of `c`.
pub open spec fn trim_char_end(s: Seq<char>, c: char) -> Seq<char>
    decreases s.len(),
{
    if s.len() > 0 && s.last() == c {
        trim_char_end(s.drop_last(), c)
    } else {
        s
    }
}

/// `str::trim_matches` with one character.
pub open spec fn trim_char(s: Seq<char>, c: char) -> Seq<char> {
    trim_char_end(trim_char_start(s, c), c)
}

/// The bounds of `trim_char` of `v[a..b]`.
fn trim_char_range(v: &[char], a: usize, b: usize, c: char) -> (r: (usize, usize))
    requires
        a <= b <= v@.len(),
    ensures
        a <= r.0 <= r.1 <= b,
        v@.subrange(r.0 as int, r.1 as int) == trim_char(v@.subrange(a as int, b as int), c),
{
    let mut x = a;
    while x < b && v[x] == c
        invariant
            a <= x <= b <= v@.len(),
            trim_char_start(v@.subrange(a as int, b as int), c) == trim_char_start(
                v@.subrange(x as int, b as int),
                c,
            ),
        decreases b - x,
    {
        proof {
            assert(v@.subrange(x as int, b as int).drop_first() =~= v@.subrange(x + 1, b as int));
        }
        x = x + 1;
    }
    let mut y = b;
    while y > x && v[y - 1] == c
        invariant
            a <= x <= y <= b <= v@.len(),
            trim_char(v@.subrange(a as int, b as int), c) == trim_char_end(
                v@.subrange(x as int, y as int),
                c,
            ),
        decreases y - x,
    {
        proof {
            assert(v@.subrange(x as int, y as int).drop_last() =~= v@.subrange(x as int, y - 1));
        }
        y = y - 1;
    }
    (x, y)
}

/// The `PRETTY_NAME=` value of an `os-release` line, without quotes.
pub open spec fn pretty_name_field(l: Seq<char>) -> Option<Seq<char>> {
    match strip_prefix(l, "PRETTY_NAME="@) {
        Some(r) => Some(trim_char(r, '"')),
        None => None,
    }
}

/// The distribution name that `/etc/os-release` gives: the first
/// `PRETTY_NAME=` line, without its quotes.
pub fn pretty_name(os_release: &str) -> (r: Option<String>)
    ensures
        match first_some(lines(os_release@), |l: Seq<char>| pretty_name_field(l)) {
            Some(n) => r matches Some(s) && s@ == n,
            None => r is None,
        },
{
    let v = chars_of(os_release);
    let key = chars_of("PRETTY_NAME=");
    let ranges = line_ranges(v.as_slice(), 0, v.len());
    let ghost f = |l: Seq<char>| pretty_name_field(l);
    let ghost ls = lines(os_release@);
    proof {
        assert(v@.subrange(0, v@.len() as int) =~= v@);
    }
    let mut i: usize = 0;
    while i < ranges.len()
        invariant
            0 <= i <= ranges@.len(),
            v@ == os_release@,
            key@ == "PRETTY_NAME="@,
            f == (|l: Seq<char>| pretty_name_field(l)),
            ls == lines(os_release@),
            pieces(v@, ranges@) == ls,
            ranges_within(ranges@, 0, v@.len() as int),
            forall|j: int| 0 <= j < i ==> f(#[trigger] ls[j]) is None,
        decreases ranges@.len() - i,
    {
        let (a, b) = ranges[i];
        proof {
            assert(0 <= ranges@[i as int].0 <= ranges@[i as int].1 <= v@.len());
            assert(ls[i as int] == v@.subrange(a as int, b as int));
        }
        if has_prefix(v.as_slice(), a, b, key.as_slice()) {
            let (x, y) = trim_char_range(v.as_slice(), a + key.len(), b, '"');
            proof {
                assert(v@.subrange(a as int, b as int).skip(key@.len() as int) =~= v@.subrange(
                    a + key@.len(),
                    b as int,
                ));
                lemma_first_some_skip(ls, f, i as int);
                assert(ls.skip(i as int)[0] == ls[i as int]);
            }
            return Some(string_of_range(v.as_slice(), x, y));
        }
        i = i + 1;
    }
    proof {
        lemma_first_some_skip(ls, f, i as int);
        assert(ls.skip(i as int) =~= Seq::<Seq<char>>::empty());
    }
    None
}

/// The value after the first `:` of a line that starts with `prefix`,
/// trimmed.
pub open spec fn prefixed_value(l: Seq<char>, prefix: Seq<char>) -> Option<Seq<char>> {
    match strip_prefix(l, prefix) {
        Some(r) => match split_once(r, ':') {
            Some((_k, x)) => Some(trim(x)),
            None => None,
        },
        None => None,
    }
}

/// The trimmed value of the first line of `v[a..b]` that starts with `key`
/// and holds a `:`.
fn first_prefixed_value(v: &[char], a: usize, b: usize, key: &[char]) -> (r: Option<(usize, usize)>)
    requires
        a <= b <= v@.len(),
    ensures
        match first_some(lines(v@.subrange(a as int, b as int)), |l: Seq<char>| prefixed_value(l, key@)) {
            Some(x) => r matches Some(p) && a <= p.0 <= p.1 <= b && v@.subrange(p.0 as int, p.1 as int) == x,
            None => r is None,
        },
{
    let ranges = line_ranges(v, a, b);
    let ghost f = |l: Seq<char>| prefixed_value(l, key@);
    let ghost ls = lines(v@.subrange(a as int, b as int));
    let mut i: usize = 0;
    while i < ranges.len()
        invariant
            0 <= i <= ranges@.len(),
            a <= b <= v@.len(),
            f == (|l: Seq<char>| prefixed_value(l, key@)),
            ls == lines(v@.subrange(a as int, b as int)),
            pieces(v@, ranges@) == ls,
            ranges_within(ranges@, a as int, b as int),
            forall|j: int| 0 <= j < i ==> f(#[trigger] ls[j]) is None,
        decreases ranges@.len() - i,
    {
        let (la, lb) = ranges[i];
        proof {
            assert(a <= ranges@[i as int].0 <= ranges@[i as int].1 <= b);
            assert(ls[i as int] == v@.subrange(la as int, lb as int));
        }
        if has_prefix(v, la, lb, key) {
            let start = la + key.len();
            let c = find_char(v, start, lb, ':');
            let ghost l = v@.subrange(la as int, lb as int);
            let ghost rest = l.skip(key@.len() as int);
            proof {
                assert(rest =~= v@.subrange(start as int, lb as int));
            }
            if c < lb {
                let (x, y) = trim_range(v, c + 1, lb);
                proof {
                    assert(rest.skip(c - start + 1) =~= v@.subrange(c + 1, lb as int));
                    lemma_first_some_skip(ls, f, i as int);
                    assert(ls.skip(i as int)[0] == ls[i as int]);
                }
                return Some((x, y));
            }
        }
        i = i + 1;
    }
    proof {
        lemma_first_some_skip(ls, f, i as int);
        assert(ls.skip(i as int) =~= Seq::<Seq<char>>::empty());
    }
    None
}

/// The CPU model that `/proc/cpuinfo` names: the value of the first
/// `model name` line.
pub fn cpu_model(cpuinfo: &str) -> (r: Option<String>)
    ensures
        match first_some(lines(cpuinfo@), |l: Seq<char>| prefixed_value(l, "model name"@)) {
            Some(n) => r matches Some(s) && s@ == n,
            None => r is None,
        },
{
    let v = chars_of(cpuinfo);
    let key = chars_of("model name");
    proof {
        assert(v@.subrange(0, v@.len() as int) =~= v@);
    }
    match first_prefixed_value(v.as_slice(), 0, v.len(), key.as_slice()) {
        Some((x, y)) => Some(string_of_range(v.as_slice(), x, y)),
        None => None,
    }
}

/// `c` in ASCII lower case (`char::to_ascii_lowercase`).
pub open spec fn ascii_lower(c: char) -> char {
    if 'A' <= c && c <= 'Z' {
        ((c as u32) + 32) as char
    } else {
        c
    }
}

/// `c` with an ASCII upper-case letter turned lower case.
fn char_ascii_lower(c: char) -> (r: char)
    ensures
        r == ascii_lower(c),
{
    if 'A' <= c && c <= 'Z' {
        let b: u8 = (c as u32 + 32) as u8;
        b as char
    } else {
        c
    }
}

/// `s` with every ASCII upper-case letter turned lower case, as
/// `str::to_ascii_lowercase` does.
fn to_ascii_lowercase(s: &str) -> (r: String)
    ensures
        r@ == s@.map_values(|c: char| ascii_lower(c)),
{
    let v = chars_of(s);
    let mut out = String::new();
    let mut i: usize = 0;
    while i < v.len()
        invariant
            0 <= i <= v@.len(),
            v@ == s@,
            out@ == v@.take(i as int).map_values(|c: char| ascii_lower(c)),
        decreases v@.len() - i,
    {
        push_char(&mut out, char_ascii_lower(v[i]));
        proof {
            assert(v@.take(i + 1).map_values(|c: char| ascii_lower(c)) =~= v@.take(i as int).map_values(
                |c: char| ascii_lower(c),
            ).push(ascii_lower(v@[i as int])));
        }
        i = i + 1;
    }
    proof {
        assert(v@.take(v@.len() as int) =~= v@);
    }
    out
}

/// Whether a `/proc/version` text is that of a WSL kernel: it names
/// Microsoft, in any case.
pub fn is_wsl(proc_version: &str) -> (b: bool)
    ensures
        b == find_sub(proc_version@.map_values(|c: char| ascii_lower(c)), "microsoft"@) is Some,
{
    let lower = to_ascii_lowercase(proc_version);
    let v = chars_of(lower.as_str());
    let pat = chars_of("microsoft");
    proof {
        assert(v@.subrange(0, v@.len() as int) =~= v@);
    }
    find_str(v.as_slice(), 0, v.len(), pat.as_slice()).is_some()
}

/// The host facts shown on the details page.
#[derive(Clone, Debug, Default)]
pub struct SystemDetails {
    pub wsl: bool,
    pub kernel: String,
    pub distro: Option<String>,
    pub arch: String,
    pub cpu_model: Option<String>,
    pub vm_ram_total: u64,
    pub windows: Vec<(String, String)>,
    pub wifi: Vec<(String, String)>,
}

/// The text of an optional string, empty when absent.
pub open spec fn text_or_empty(s: Option<&str>) -> Seq<char> {
    match s {
        Some(t) => t@,
        None => seq![],
    }
}

/// The system details from what the system reported: whether this is
/// WSL, the output of `uname -r` and `uname -m`, the contents of
/// `/etc/os-release` and `/proc/cpuinfo` where they could be read, the
/// total RAM, and, under WSL, the output of the PowerShell host query and
/// of `netsh wlan show interfaces`.
pub fn system_details(
    wsl: bool,
    kernel: Option<&str>,
    arch: Option<&str>,
    os_release: Option<&str>,
    cpuinfo: Option<&str>,
    vm_ram_total: u64,
    windows_text: &str,
    wifi_text: &str,
) -> (d: SystemDetails)
    ensures
        d.wsl == wsl,
        d.kernel@ == text_or_empty(kernel),
        d.arch@ == text_or_empty(arch),
        match os_release {
            Some(t) => match first_some(lines(t@), |l: Seq<char>| pretty_name_field(l)) {
                Some(n) => d.distro matches Some(s) && s@ == n,
                None => d.distro is None,
            },
            None => d.distro is None,
        },
        match cpuinfo {
            Some(t) => match first_some(lines(t@), |l: Seq<char>| prefixed_value(l, "model name"@)) {
                Some(n) => d.cpu_model matches Some(s) && s@ == n,
                None => d.cpu_model is None,
            },
            None => d.cpu_model is None,
        },
        d.vm_ram_total == vm_ram_total,
        pair_views(d.windows@) == if wsl {
            powershell_pairs_of(windows_text@)
        } else {
            seq![]
        },
        pair_views(d.wifi@) == if wsl {
            netsh_wifi_pairs_of(wifi_text@)
        } else {
            seq![]
        },
{
    let kernel_s = match kernel {
        Some(k) => String::from_str(k),
        None => String::new(),
    };
    let arch_s = match arch {
        Some(a) => String::from_str(a),
        None => String::new(),
    };
    let distro = match os_release {
        Some(t) => pretty_name(t),
        None => None,
    };
    let model = match cpuinfo {
        Some(t) => cpu_model(t),
        None => None,
    };
    let mut details = SystemDetails {
        wsl,
        kernel: kernel_s,
        distro,
        arch: arch_s,
        cpu_model: model,
        vm_ram_total,
        windows: Vec::new(),
        wifi: Vec::new(),
    };
    if details.wsl {
        details.windows = powershell_pairs(windows_text);
        details.wifi = netsh_wifi_pairs(wifi_text);
    }
    proof {
        if !wsl {
            assert(pair_views(details.windows@) =~= Seq::<(Seq<char>, Seq<char>)>::empty());
            assert(pair_views(details.wifi@) =~= Seq::<(Seq<char>, Seq<char>)>::empty());
        }
    }
    details
}


/// A `/proc/meminfo` line as (key, bytes): the first word without its
/// trailing colons, and the second word, a number of KiB, times 1024.
pub open spec fn meminfo_entry(l: Seq<char>) -> Option<(Seq<char>, int)> {
    let w = words(l);
    if w.len() >= 2 {
        match parse_u64_spec(w[1]) {
            Some(n) => Some((trim_char_end(w[0], ':'), n * 1024)),
            None => None,
        }
    } else {
        None
    }
}

/// The entries of a `/proc/meminfo` text, in order.
pub open spec fn meminfo_entries(text: Seq<char>) -> Seq<(Seq<char>, int)> {
    meminfo_entries_of_lines(lines(text))
}

/// The entries of some `/proc/meminfo` lines, in order.
pub open spec fn meminfo_entries_of_lines(ls: Seq<Seq<char>>) -> Seq<(Seq<char>, int)> {
    filter_map(ls, meminfo_entry_fn())
}

/// `meminfo_entry` as a function value.
pub open spec fn meminfo_entry_fn() -> spec_fn(Seq<char>) -> Option<(Seq<char>, int)> {
    |l: Seq<char>| meminfo_entry(l)
}

/// The value of the last entry for `key`, or 0 when there is none.
pub open spec fn meminfo_lookup(es: Seq<(Seq<char>, int)>, key: Seq<char>) -> int
    decreases es.len(),
{
    if es.len() == 0 {
        0
    } else if es.last().0 == key {
        es.last().1
    } else {
        meminfo_lookup(es.drop_last(), key)
    }
}

/// The entries of `/proc/meminfo`, in bytes.
#[derive(Clone, Debug, Default)]
pub struct MemInfo {
    pub entries: Vec<(String, u64)>,
}

/// The (key, value) views of the entries.
pub open spec fn meminfo_view(m: MemInfo) -> Seq<(Seq<char>, int)> {
    m.entries@.map_values(|e: (String, u64)| (e.0@, e.1 as int))
}

/// The (key, bytes) entry of the line `v[a..b]`; `Err` when its value
/// overflows bytes.
fn meminfo_line(v: &[char], a: usize, b: usize) -> (r: Result<Option<(String, u64)>, ()>)
    requires
        a <= b <= v@.len(),
    ensures
        match meminfo_entry(v@.subrange(a as int, b as int)) {
            Some(e) => if e.1 <= u64::MAX {
                r matches Ok(Some(p)) && p.0@ == e.0 && p.1 == e.1
            } else {
                r is Err
            },
            None => r matches Ok(None),
        },
{
    let ws = word_ranges(v, a, b);
    if ws.len() < 2 {
        return Ok(None);
    }
    let (ka, kb) = ws[0];
    let (na, nb) = ws[1];
    proof {
        assert(a <= ws@[0].0 <= ws@[0].1 <= b);
        assert(a <= ws@[1].0 <= ws@[1].1 <= b);
        assert(pieces(v@, ws@)[0] == v@.subrange(ka as int, kb as int));
        assert(pieces(v@, ws@)[1] == v@.subrange(na as int, nb as int));
    }
    match parse_u64(v, na, nb) {
        Some(n) => {
            if n > u64::MAX / 1024 {
                return Err(());
            }
            let (x, y) = trim_char_end_range(v, ka, kb, ':');
            Ok(Some((string_of_range(v, x, y), n * 1024)))
        },
        None => Ok(None),
    }
}

/// The bounds of `trim_char_end` of `v[a..b]`.
fn trim_char_end_range(v: &[char], a: usize, b: usize, c: char) -> (r: (usize, usize))
    requires
        a <= b <= v@.len(),
    ensures
        a == r.0 <= r.1 <= b,
        v@.subrange(r.0 as int, r.1 as int) == trim_char_end(v@.subrange(a as int, b as int), c),
{
    let mut y = b;
    while y > a && v[y - 1] == c
        invariant
            a <= y <= b <= v@.len(),
            trim_char_end(v@.subrange(a as int, b as int), c) == trim_char_end(
                v@.subrange(a as int, y as int),
                c,
            ),
        decreases y - a,
    {
        proof {
            assert(v@.subrange(a as int, y as int).drop_last() =~= v@.subrange(a as int, y - 1));
        }
        y = y - 1;
    }
    (a, y)
}

/// The entries of a `/proc/meminfo` text in bytes; `None` when a value
/// does not fit in 64 bits as bytes (where the KiB count times 1024
/// overflows).
#[verifier::rlimit(40)]
pub fn parse_meminfo(text: &str) -> (r: Option<MemInfo>)
    ensures
        r is None <==> exists|i: int|
            0 <= i < meminfo_entries(text@).len() && #[trigger] meminfo_entries(text@)[i].1
                > u64::MAX,
        r matches Some(m) ==> meminfo_view(m) == meminfo_entries(text@),
{
    let v = chars_of(text);
    let ranges = line_ranges(v.as_slice(), 0, v.len());
    let ghost f = meminfo_entry_fn();
    let ghost ls = lines(text@);
    let ghost g = |e: (String, u64)| (e.0@, e.1 as int);
    proof {
        assert(v@.subrange(0, v@.len() as int) =~= v@);
    }
    let mut entries: Vec<(String, u64)> = Vec::new();
    let mut i: usize = 0;
    while i < ranges.len()
        invariant
            0 <= i <= ranges@.len(),
            v@ == text@,
            f == meminfo_entry_fn(),
            g == (|e: (String, u64)| (e.0@, e.1 as int)),
            ls == lines(text@),
            pieces(v@, ranges@) == ls,
            ranges_within(ranges@, 0, v@.len() as int),
            entries@.map_values(g) == filter_map(ls.take(i as int), f),
        decreases ranges@.len() - i,
    {
        let (a, b) = ranges[i];
        proof {
            assert(0 <= ranges@[i as int].0 <= ranges@[i as int].1 <= v@.len());
            assert(ls[i as int] == v@.subrange(a as int, b as int));
            assert(ls.take(i + 1) =~= ls.take(i as int).push(ls[i as int]));
            lemma_filter_map_push(ls.take(i as int), ls[i as int], f);
        }
        let ghost before = entries@;
        match meminfo_line(v.as_slice(), a, b) {
            Ok(Some(e)) => {
                entries.push(e);
                proof {
                    assert(entries@.map_values(g) =~= before.map_values(g).push(g(e)));
                }
            },
            Ok(None) => {},
            Err(()) => {
                proof {
                    assert(meminfo_entry(ls[i as int]) matches Some(e) && e.1 > u64::MAX);
                    lemma_meminfo_overflow_seen(ls, i as int);
                    assert(meminfo_entries(text@) == meminfo_entries_of_lines(ls));
                }
                return None;
            },
        }
        i = i + 1;
    }
    proof {
        assert(ls.take(ranges@.len() as int) =~= ls);
        assert forall|k: int| 0 <= k < meminfo_entries(text@).len() implies #[trigger] meminfo_entries(
            text@,
        )[k].1 <= u64::MAX by {
            assert(entries@.map_values(g)[k] == g(entries@[k]));
        }
    }
    Some(MemInfo { entries })
}

/// A line whose value overflows is an overflowing entry of the whole text.
proof fn lemma_meminfo_overflow_seen(ls: Seq<Seq<char>>, i: int)
    requires
        0 <= i < ls.len(),
        meminfo_entry(ls[i]) matches Some(e) && e.1 > u64::MAX,
    ensures
        exists|k: int|
            0 <= k < meminfo_entries_of_lines(ls).len() && #[trigger] meminfo_entries_of_lines(
                ls,
            )[k].1 > u64::MAX,
{
    let f = meminfo_entry_fn();
    assert(ls.take(i + 1) =~= ls.take(i).push(ls[i]));
    lemma_filter_map_push(ls.take(i), ls[i], f);
    let e = meminfo_entry(ls[i]).unwrap();
    assert(f(ls[i]) == Some(e));
    let es = filter_map(ls.take(i + 1), f);
    assert(es == filter_map(ls.take(i), f).push(e));
    let k = es.len() - 1;
    lemma_filter_map_prefix(ls, f, i + 1);
    assert(filter_map(ls, f)[k] == es[k]);
    assert(meminfo_entries_of_lines(ls)[k].1 > u64::MAX);
}

/// The values that `filter_map` gives for a prefix start its values for
/// the whole.
pub proof fn lemma_filter_map_prefix<A, B>(s: Seq<A>, f: spec_fn(A) -> Option<B>, k: int)
    requires
        0 <= k <= s.len(),
    ensures
        filter_map(s.take(k), f).len() <= filter_map(s, f).len(),
        forall|j: int|
            0 <= j < filter_map(s.take(k), f).len() ==> #[trigger] filter_map(s.take(k), f)[j]
                == filter_map(s, f)[j],
    decreases s.len() - k,
{
    if k < s.len() {
        lemma_filter_map_prefix(s, f, k + 1);
        assert(s.take(k + 1) =~= s.take(k).push(s[k]));
        lemma_filter_map_push(s.take(k), s[k], f);
        assert forall|j: int| 0 <= j < filter_map(s.take(k), f).len() implies #[trigger] filter_map(
            s.take(k),
            f,
        )[j] == filter_map(s, f)[j] by {
            assert(filter_map(s.take(k + 1), f)[j] == filter_map(s.take(k), f)[j]);
        }
    } else {
        assert(s.take(k) =~= s);
    }
}

/// The number of bytes that `/proc/meminfo` gives for `key`: the last
/// entry of that name, or 0.
pub fn kib(mem: &MemInfo, key: &str) -> (n: u64)
    ensures
        n == meminfo_lookup(meminfo_view(*mem), key@),
{
    let ghost g = |e: (String, u64)| (e.0@, e.1 as int);
    let ghost es = meminfo_view(*mem);
    let mut i = mem.entries.len();
    proof {
        assert(es.take(i as int) =~= es);
    }
    while i > 0
        invariant
            0 <= i <= mem.entries@.len(),
            g == (|e: (String, u64)| (e.0@, e.1 as int)),
            es == mem.entries@.map_values(g),
            meminfo_lookup(es, key@) == meminfo_lookup(es.take(i as int), key@),
        decreases i,
    {
        let (k, n) = &mem.entries[i - 1];
        let kv = chars_of(k.as_str());
        let key_v = chars_of(key);
        proof {
            assert(es.take(i as int).last() == g(mem.entries@[i - 1]));
            assert(kv@.subrange(0, kv@.len() as int) =~= kv@);
            assert(es.take(i as int).drop_last() =~= es.take(i - 1));
        }
        if range_eq(kv.as_slice(), 0, kv.len(), key_v.as_slice()) {
            return *n;
        }
        i = i - 1;
    }
    0
}

/// RAM and swap figures, in bytes, that `/proc/meminfo` gives.
#[derive(Clone, Copy, Debug, Default, PartialEq, Eq)]
pub struct MemoryUsage {
    pub ram_total: u64,
    pub ram_used: u64,
    pub ram_available: u64,
    pub swap_total: u64,
    pub swap_used: u64,
}

/// `a - b`, or 0 below 0 (`u64::saturating_sub`).
pub open spec fn sat_sub(a: int, b: int) -> int {
    if a >= b {
        a - b
    } else {
        0
    }
}

/// RAM in use is the total less what is available (less what is free when
/// no availability is reported); swap in use is its total less its free
/// part; both floored at 0.
pub fn memory_usage(mem: &MemInfo) -> (u: MemoryUsage)
    ensures
        ({
            let es = meminfo_view(*mem);
            let total = meminfo_lookup(es, "MemTotal"@);
            let available = meminfo_lookup(es, "MemAvailable"@);
            let free = meminfo_lookup(es, "MemFree"@);
            let swap_total = meminfo_lookup(es, "SwapTotal"@);
            let swap_free = meminfo_lookup(es, "SwapFree"@);
            &&& u.ram_total == total
            &&& u.ram_available == available
            &&& u.ram_used == sat_sub(total, if available > 0 { available } else { free })
            &&& u.swap_total == swap_total
            &&& u.swap_used == sat_sub(swap_total, swap_free)
        }),
        u.ram_used <= u.ram_total,
        u.swap_used <= u.swap_total,
{
    let total = kib(mem, "MemTotal");
    let available = kib(mem, "MemAvailable");
    let free = kib(mem, "MemFree");
    let used = total.saturating_sub(if available > 0 { available } else { free });
    let swap_total = kib(mem, "SwapTotal");
    let swap_free = kib(mem, "SwapFree");
    let swap_used = swap_total.saturating_sub(swap_free);
    MemoryUsage { ram_total: total, ram_used: used, ram_available: available, swap_total, swap_used }
}


/// A process and what it has used so far.
#[derive(Clone, Debug)]
pub struct ProcessInfo {
    pub pid: u32,
    pub name: String,
    pub cpu_ticks: u64,
    pub memory_bytes: u64,
}

/// The key by which processes are ranked: CPU time, then resident memory.
pub open spec fn load_key(p: ProcessInfo) -> (u64, u64) {
    (p.cpu_ticks, p.memory_bytes)
}

/// `a` ranks strictly above `b`: more CPU time, or as much and more memory.
pub open spec fn loads_more(a: ProcessInfo, b: ProcessInfo) -> bool {
    a.cpu_ticks > b.cpu_ticks || (a.cpu_ticks == b.cpu_ticks && a.memory_bytes > b.memory_bytes)
}

/// The processes whose key is `k`.
pub open spec fn has_key(k: (u64, u64)) -> spec_fn(ProcessInfo) -> bool {
    |q: ProcessInfo| load_key(q) == k
}

/// No process ranks above one before it.
pub open spec fn by_load(s: Seq<ProcessInfo>) -> bool {
    forall|i: int, j: int| 0 <= i < j < s.len() ==> !loads_more(#[trigger] s[j], #[trigger] s[i])
}

/// `out` is `inp` ordered by falling load, processes of equal load kept
/// in their first order (what a stable sort on the reversed key gives).
pub open spec fn load_order_of(out: Seq<ProcessInfo>, inp: Seq<ProcessInfo>) -> bool {
    &&& by_load(out)
    &&& forall|k: (u64, u64)| #[trigger] out.filter(has_key(k)) == inp.filter(has_key(k))
}

/// Inserting `x` at `p` keeps every key class but that of `x`, and adds
/// `x` at the end of its own class when every member of it comes before
/// `p`.
proof fn lemma_insert_classes(out: Seq<ProcessInfo>, p: int, x: ProcessInfo, k: (u64, u64))
    requires
        0 <= p <= out.len(),
        forall|j: int| p <= j < out.len() ==> load_key(#[trigger] out[j]) != load_key(x),
    ensures
        out.insert(p, x).filter(has_key(k)) == if load_key(x) == k {
            out.filter(has_key(k)).push(x)
        } else {
            out.filter(has_key(k))
        },
{
    broadcast use vstd::seq_lib::group_filter_ensures;

    let f = has_key(k);
    let a = out.take(p);
    let b = out.skip(p);
    assert(out =~= a + b);
    assert(out.insert(p, x) =~= a.push(x) + b);
    Seq::filter_distributes_over_add(a, b, f);
    Seq::filter_distributes_over_add(a.push(x), b, f);
    a.lemma_filter_push(x, f);
    if load_key(x) == k {
        assert forall|j: int| 0 <= j < b.len() implies !f(#[trigger] b[j]) by {
            assert(b[j] == out[p + j]);
        }
        b.lemma_all_neg_filter_empty(f);
        assert(b.filter(f) =~= Seq::<ProcessInfo>::empty());
        assert(a.filter(f).push(x) + b.filter(f) =~= (a.filter(f) + b.filter(f)).push(x));
    }
}

/// Where `x` goes in `out`: after every process that ranks at least as
/// high.
fn insert_position(out: &Vec<ProcessInfo>, x: &ProcessInfo) -> (p: usize)
    requires
        by_load(out@),
    ensures
        p <= out@.len(),
        forall|j: int| 0 <= j < p ==> !loads_more(*x, #[trigger] out@[j]),
        forall|j: int| p <= j < out@.len() ==> loads_more(*x, #[trigger] out@[j]),
{
    let mut p: usize = 0;
    while p < out.len() && !(x.cpu_ticks > out[p].cpu_ticks || (x.cpu_ticks == out[p].cpu_ticks
        && x.memory_bytes > out[p].memory_bytes))
        invariant
            p <= out@.len(),
            by_load(out@),
            forall|j: int| 0 <= j < p ==> !loads_more(*x, #[trigger] out@[j]),
        decreases out@.len() - p,
    {
        p = p + 1;
    }
    proof {
        assert forall|j: int| p <= j < out@.len() implies loads_more(*x, #[trigger] out@[j]) by {
            if j > p {
                assert(!loads_more(out@[j], out@[p as int]));
            }
        }
    }
    p
}

/// The processes ordered by falling CPU time, then falling memory, with
/// equal ones in their first order.
pub fn sort_by_load(procs: Vec<ProcessInfo>) -> (out: Vec<ProcessInfo>)
    ensures
        load_order_of(out@, procs@),
{
    let ghost inp = procs@;
    let n = procs.len();
    let mut rest = procs;
    let mut out: Vec<ProcessInfo> = Vec::new();
    let mut i: usize = 0;
    proof {
        assert forall|k: (u64, u64)| #[trigger] out@.filter(has_key(k)) == inp.take(0).filter(has_key(k)) by {
            reveal(Seq::filter);
            assert(out@.filter(has_key(k)) =~= Seq::<ProcessInfo>::empty());
            assert(inp.take(0).filter(has_key(k)) =~= Seq::<ProcessInfo>::empty());
        }
    }
    while rest.len() > 0
        invariant
            i + rest@.len() == inp.len(),
            inp.len() == n,
            rest@ == inp.skip(i as int),
            by_load(out@),
            forall|k: (u64, u64)| #[trigger] out@.filter(has_key(k)) == inp.take(i as int).filter(has_key(k)),
        decreases rest@.len(),
    {
        let x = rest.remove(0);
        let p = insert_position(&out, &x);
        let ghost old_out = out@;
        proof {
            assert(x == inp[i as int]);
            assert(rest@ =~= inp.skip(i + 1));
            assert(inp.take(i + 1) =~= inp.take(i as int).push(x));
        }
        out.insert(p, x);
        proof {
            assert(out@ == old_out.insert(p as int, x));
            assert forall|a: int, b: int| 0 <= a < b < out@.len() implies !loads_more(
                #[trigger] out@[b],
                #[trigger] out@[a],
            ) by {
                if b < p {
                    assert(out@[a] == old_out[a] && out@[b] == old_out[b]);
                } else if b == p {
                    assert(out@[a] == old_out[a]);
                } else if a == p {
                    assert(out@[b] == old_out[b - 1]);
                } else if a < p {
                    assert(out@[a] == old_out[a] && out@[b] == old_out[b - 1]);
                    assert(loads_more(x, old_out[b - 1]));
                } else {
                    assert(out@[a] == old_out[a - 1] && out@[b] == old_out[b - 1]);
                }
            }
            assert forall|k: (u64, u64)| #[trigger] out@.filter(has_key(k)) == inp.take(i + 1).filter(
                has_key(k),
            ) by {
                assert forall|j: int| p <= j < old_out.len() implies load_key(#[trigger] old_out[j])
                    != load_key(x) by {
                    assert(loads_more(x, old_out[j]));
                }
                lemma_insert_classes(old_out, p as int, x, k);
                inp.take(i as int).lemma_filter_push(x, has_key(k));
            }
        }
        i = i + 1;
    }
    proof {
        assert(inp.take(i as int) =~= inp);
    }
    out
}

/// Ordered lists with the same key classes are the same list.
proof fn lemma_by_load_classes_determine(a: Seq<ProcessInfo>, b: Seq<ProcessInfo>)
    requires
        by_load(a),
        by_load(b),
        forall|k: (u64, u64)| #[trigger] a.filter(has_key(k)) == b.filter(has_key(k)),
    ensures
        a == b,
    decreases a.len() + b.len(),
{
    reveal(Seq::filter);
    if a.len() == 0 && b.len() == 0 {
        assert(a =~= b);
    } else if a.len() == 0 || b.len() == 0 {
        let (s, t) = if a.len() == 0 { (b, a) } else { (a, b) };
        let k = load_key(s.last());
        assert(s.filter(has_key(k)).len() > 0);
        assert(t.filter(has_key(k)) =~= Seq::<ProcessInfo>::empty());
        assert(a.filter(has_key(k)) == b.filter(has_key(k)));
    } else {
        let ka = load_key(a.last());
        let kb = load_key(b.last());
        lemma_last_key_is_lowest(a, b, ka);
        lemma_last_key_is_lowest(b, a, kb);
        assert(ka == kb);
        assert(a.filter(has_key(ka)).last() == a.last());
        assert(b.filter(has_key(ka)).last() == b.last());
        assert(a.filter(has_key(ka)) == b.filter(has_key(ka)));
        assert forall|k: (u64, u64)| #[trigger] a.drop_last().filter(has_key(k)) == b.drop_last().filter(
            has_key(k),
        ) by {
            let f = has_key(k);
            assert(a.filter(f) == b.filter(f));
            assert(a.last() == b.last());
            if f(a.last()) {
                assert(a.filter(f) == a.drop_last().filter(f).push(a.last()));
                assert(b.filter(f) == b.drop_last().filter(f).push(b.last()));
                assert(a.drop_last().filter(f) =~= a.filter(f).drop_last());
                assert(b.drop_last().filter(f) =~= b.filter(f).drop_last());
            } else {
                assert(a.filter(f) == a.drop_last().filter(f));
                assert(b.filter(f) == b.drop_last().filter(f));
            }
        }
        lemma_by_load_drop_last(a);
        lemma_by_load_drop_last(b);
        lemma_by_load_classes_determine(a.drop_last(), b.drop_last());
        assert(a =~= a.drop_last().push(a.last()));
        assert(b =~= b.drop_last().push(b.last()));
    }
}

proof fn lemma_by_load_drop_last(a: Seq<ProcessInfo>)
    requires
        by_load(a),
        a.len() > 0,
    ensures
        by_load(a.drop_last()),
{
    assert forall|i: int, j: int| 0 <= i < j < a.drop_last().len() implies !loads_more(
        #[trigger] a.drop_last()[j],
        #[trigger] a.drop_last()[i],
    ) by {
        assert(a.drop_last()[j] == a[j] && a.drop_last()[i] == a[i]);
    }
}

/// The key of the last process of an ordered list is at most the key of
/// every process of another list with the same classes.
proof fn lemma_last_key_is_lowest(a: Seq<ProcessInfo>, b: Seq<ProcessInfo>, ka: (u64, u64))
    requires
        by_load(b),
        a.len() > 0,
        b.len() > 0,
        ka == load_key(a.last()),
        a.filter(has_key(ka)) == b.filter(has_key(ka)),
    ensures
        !loads_more(b.last(), a.last()),
{
    broadcast use vstd::seq_lib::group_filter_ensures;

    reveal(Seq::filter);
    let f = has_key(ka);
    assert(a.filter(f).len() > 0);
    let e = b.filter(f)[0];
    assert(f(e));
    assert(b.filter(f).contains(e));
    b.lemma_filter_contains_rev(f, e);
    let j = choose|j: int| 0 <= j < b.len() && b[j] == e;
    if j < b.len() - 1 {
        assert(!loads_more(b[b.len() - 1], b[j]));
    }
}

/// There is one way to order a list by falling load, equal loads kept in
/// their first order: two such orders of the same list are equal.
pub proof fn lemma_load_order_unique(a: Seq<ProcessInfo>, b: Seq<ProcessInfo>, inp: Seq<ProcessInfo>)
    requires
        load_order_of(a, inp),
        load_order_of(b, inp),
    ensures
        a == b,
{
    assert forall|k: (u64, u64)| #[trigger] a.filter(has_key(k)) == b.filter(has_key(k)) by {
        assert(a.filter(has_key(k)) == inp.filter(has_key(k)));
        assert(b.filter(has_key(k)) == inp.filter(has_key(k)));
    }
    lemma_by_load_classes_determine(a, b);
}

/// `out` is the first `n` (or all, when there are fewer) of `procs`
/// ordered by falling load, equal loads kept in their first order.
pub open spec fn top_of(out: Seq<ProcessInfo>, procs: Seq<ProcessInfo>, n: int) -> bool {
    exists|sorted: Seq<ProcessInfo>|
        load_order_of(sorted, procs) && out == sorted.take(
            if n < sorted.len() {
                n
            } else {
                sorted.len() as int
            },
        )
}

/// The `top_n` processes with the most CPU time (then memory), in that
/// order.
pub fn top_processes(procs: Vec<ProcessInfo>, top_n: usize) -> (out: Vec<ProcessInfo>)
    ensures
        top_of(out@, procs@, top_n as int),
{
    let mut out = sort_by_load(procs);
    let ghost sorted = out@;
    out.truncate(top_n);
    proof {
        if top_n >= sorted.len() {
            assert(sorted.take(sorted.len() as int) =~= sorted);
        }
    }
    out
}

/// A process occurs as often in its load class as in the whole list.
proof fn lemma_count_in_class(s: Seq<ProcessInfo>, x: ProcessInfo)
    ensures
        s.filter(has_key(load_key(x))).to_multiset().count(x) == s.to_multiset().count(x),
    decreases s.len(),
{
    broadcast use vstd::multiset::group_multiset_axioms;

    let p = has_key(load_key(x));
    if s.len() == 0 {
        reveal(Seq::filter);
        assert(s.filter(p) =~= Seq::<ProcessInfo>::empty());
        s.to_multiset_ensures();
        s.filter(p).to_multiset_ensures();
        assert(!s.contains(x) && !s.filter(p).contains(x));
    } else {
        let t = s.drop_last();
        let a = s.last();
        assert(s =~= t.push(a));
        lemma_count_in_class(t, x);
        t.lemma_filter_push(a, p);
        vstd::seq_lib::to_multiset_build(t, a);
        vstd::seq_lib::to_multiset_build(t.filter(p), a);
    }
}

/// An order by load holds the same processes, as often, as its input.
proof fn lemma_load_order_same_processes(out: Seq<ProcessInfo>, inp: Seq<ProcessInfo>)
    requires
        load_order_of(out, inp),
    ensures
        out.to_multiset() == inp.to_multiset(),
{
    assert forall|x: ProcessInfo| out.to_multiset().count(x) == inp.to_multiset().count(x) by {
        lemma_count_in_class(out, x);
        lemma_count_in_class(inp, x);
        assert(out.filter(has_key(load_key(x))) == inp.filter(has_key(load_key(x))));
    }
    assert(out.to_multiset() =~= inp.to_multiset());
}

/// What `top_processes` gives: `min(n, |procs|)` processes, ranked by
/// falling load, each taken from `procs` at most as often as it occurs
/// there, and no process left out ranks above the last one kept.
pub proof fn lemma_top_processes_law(out: Seq<ProcessInfo>, procs: Seq<ProcessInfo>, n: int)
    requires
        top_of(out, procs, n),
        n >= 0,
    ensures
        out.len() == if n < procs.len() {
            n
        } else {
            procs.len() as int
        },
        by_load(out),
        out.to_multiset().subset_of(procs.to_multiset()),
        forall|q: ProcessInfo|
            out.len() > 0 && procs.to_multiset().count(q) > #[trigger] out.to_multiset().count(q)
                ==> !loads_more(q, out.last()),
{
    broadcast use vstd::multiset::group_multiset_axioms;

    let sorted = choose|sorted: Seq<ProcessInfo>|
        load_order_of(sorted, procs) && out == sorted.take(
            if n < sorted.len() {
                n
            } else {
                sorted.len() as int
            },
        );
    lemma_load_order_same_processes(sorted, procs);
    sorted.to_multiset_ensures();
    procs.to_multiset_ensures();
    assert(sorted.len() == procs.len());
    let m = out.len() as int;
    let rest = sorted.skip(m);
    assert(sorted =~= out + rest);
    vstd::seq_lib::lemma_multiset_commutative(out, rest);
    assert forall|a: int, b: int| 0 <= a < b < out.len() implies !loads_more(
        #[trigger] out[b],
        #[trigger] out[a],
    ) by {
        assert(out[a] == sorted[a] && out[b] == sorted[b]);
    }
    assert forall|q: ProcessInfo| out.to_multiset().count(q) <= procs.to_multiset().count(q) by {
        assert(sorted.to_multiset().count(q) == out.to_multiset().count(q) + rest.to_multiset().count(q));
    }
    assert forall|q: ProcessInfo|
        out.len() > 0 && procs.to_multiset().count(q) > #[trigger] out.to_multiset().count(q) implies !loads_more(
        q,
        out.last(),
    ) by {
        assert(sorted.to_multiset().count(q) == out.to_multiset().count(q) + rest.to_multiset().count(q));
        rest.to_multiset_ensures();
        assert(rest.contains(q));
        let j = choose|j: int| 0 <= j < rest.len() && rest[j] == q;
        assert(sorted[m + j] == q);
        assert(out.last() == sorted[m - 1]);
        assert(!loads_more(sorted[m + j], sorted[m - 1]));
    }
}


/// `s` without its first `n` items, empty when it has no more
/// (`Iterator::skip`).
pub open spec fn skip_n<A>(s: Seq<A>, n: int) -> Seq<A> {
    if s.len() <= n {
        seq![]
    } else {
        s.skip(n)
    }
}

/// The counters of a `/proc/stat` line that starts with `cpu`: its words
/// after the first that read as numbers.
pub open spec fn cpu_sample(l: Seq<char>) -> Option<Seq<u64>> {
    if "cpu"@.is_prefix_of(l) {
        Some(filter_map(skip_n(words(l), 1), |w: Seq<char>| parse_u64_spec(w)))
    } else {
        None
    }
}

/// The counters of the `cpu` lines of `/proc/stat`: the total first, then
/// one line per core.
pub open spec fn proc_stat_samples(text: Seq<char>) -> Seq<Seq<u64>> {
    filter_map(lines(text), |l: Seq<char>| cpu_sample(l))
}

/// The numbers among the words `ws` (from index `from` on) of `v`.
fn parse_words_u64(v: &[char], ws: &Vec<(usize, usize)>, from: usize) -> (out: Vec<u64>)
    requires
        ranges_within(ws@, 0, v@.len() as int),
    ensures
        out@ == filter_map(skip_n(pieces(v@, ws@), from as int), |w: Seq<char>| parse_u64_spec(w)),
{
    let ghost f = |w: Seq<char>| parse_u64_spec(w);
    let ghost all = skip_n(pieces(v@, ws@), from as int);
    let mut out: Vec<u64> = Vec::new();
    if ws.len() <= from {
        proof {
            assert(all =~= Seq::<Seq<char>>::empty());
            assert(out@ =~= filter_map(all, f));
        }
        return out;
    }
    let mut i = from;
    proof {
        assert(all.take(0) =~= Seq::<Seq<char>>::empty());
        assert(out@ =~= filter_map(all.take(0), f));
    }
    while i < ws.len()
        invariant
            from <= i <= ws@.len(),
            from < ws@.len(),
            ranges_within(ws@, 0, v@.len() as int),
            f == (|w: Seq<char>| parse_u64_spec(w)),
            all == pieces(v@, ws@).skip(from as int),
            out@ == filter_map(all.take(i - from), f),
        decreases ws@.len() - i,
    {
        let (a, b) = ws[i];
        proof {
            assert(0 <= ws@[i as int].0 <= ws@[i as int].1 <= v@.len());
            assert(all[i - from] == v@.subrange(a as int, b as int));
            assert(all.take(i - from + 1) =~= all.take(i - from).push(all[i - from]));
            lemma_filter_map_push(all.take(i - from), all[i - from], f);
        }
        match parse_u64(v, a, b) {
            Some(n) => out.push(n),
            None => {},
        }
        i = i + 1;
    }
    proof {
        assert(all.take(ws@.len() - from) =~= all);
    }
    out
}

/// The counters of the `cpu` lines of a `/proc/stat` text.
pub fn parse_proc_stat_cpu(text: &str) -> (out: Vec<Vec<u64>>)
    ensures
        out@.map_values(|v: Vec<u64>| v@) == proc_stat_samples(text@),
{
    let v = chars_of(text);
    let key = chars_of("cpu");
    let ranges = line_ranges(v.as_slice(), 0, v.len());
    let ghost f = |l: Seq<char>| cpu_sample(l);
    let ghost g = |x: Vec<u64>| x@;
    let ghost ls = lines(text@);
    proof {
        assert(v@.subrange(0, v@.len() as int) =~= v@);
    }
    let mut out: Vec<Vec<u64>> = Vec::new();
    let mut i: usize = 0;
    while i < ranges.len()
        invariant
            0 <= i <= ranges@.len(),
            v@ == text@,
            key@ == "cpu"@,
            f == (|l: Seq<char>| cpu_sample(l)),
            g == (|x: Vec<u64>| x@),
            ls == lines(text@),
            pieces(v@, ranges@) == ls,
            ranges_within(ranges@, 0, v@.len() as int),
            out@.map_values(g) == filter_map(ls.take(i as int), f),
        decreases ranges@.len() - i,
    {
        let (a, b) = ranges[i];
        proof {
            assert(0 <= ranges@[i as int].0 <= ranges@[i as int].1 <= v@.len());
            assert(ls[i as int] == v@.subrange(a as int, b as int));
            assert(ls.take(i + 1) =~= ls.take(i as int).push(ls[i as int]));
            lemma_filter_map_push(ls.take(i as int), ls[i as int], f);
        }
        let ghost before = out@;
        if has_prefix(v.as_slice(), a, b, key.as_slice()) {
            let ws = word_ranges(v.as_slice(), a, b);
            proof {
                assert forall|k: int| 0 <= k < ws@.len() implies 0 <= #[trigger] ws@[k].0 <= ws@[k].1
                    <= v@.len() by {
                    assert(a <= ws@[k].0 <= ws@[k].1 <= b);
                }
            }
            let nums = parse_words_u64(v.as_slice(), &ws, 1);
            out.push(nums);
            proof {
                assert(out@.map_values(g) =~= before.map_values(g).push(nums@));
            }
        }
        i = i + 1;
    }
    proof {
        assert(ls.take(ranges@.len() as int) =~= ls);
    }
    out
}


/// The file systems that the disk view lists: real storage, not virtual
/// ones such as `tmpfs` or `proc`.
pub open spec fn real_fs_names() -> Seq<Seq<char>> {
    seq![
        "ext2"@, "ext3"@, "ext4"@, "xfs"@, "btrfs"@, "zfs"@, "f2fs"@, "ntfs"@, "ntfs3"@, "vfat"@,
        "fat32"@, "exfat"@, "apfs"@, "9p"@, "drvfs"@, "fuseblk"@, "cifs"@, "nfs"@, "nfs4"@,
    ]
}

/// The list of `real_fs_names`, as characters.
fn real_fs_list() -> (out: Vec<Vec<char>>)
    ensures
        out@.map_values(|x: Vec<char>| x@) == real_fs_names(),
{
    let mut out: Vec<Vec<char>> = Vec::new();
    out.push(chars_of("ext2"));
    out.push(chars_of("ext3"));
    out.push(chars_of("ext4"));
    out.push(chars_of("xfs"));
    out.push(chars_of("btrfs"));
    out.push(chars_of("zfs"));
    out.push(chars_of("f2fs"));
    out.push(chars_of("ntfs"));
    out.push(chars_of("ntfs3"));
    out.push(chars_of("vfat"));
    out.push(chars_of("fat32"));
    out.push(chars_of("exfat"));
    out.push(chars_of("apfs"));
    out.push(chars_of("9p"));
    out.push(chars_of("drvfs"));
    out.push(chars_of("fuseblk"));
    out.push(chars_of("cifs"));
    out.push(chars_of("nfs"));
    out.push(chars_of("nfs4"));
    proof {
        assert(out@.map_values(|x: Vec<char>| x@) =~= real_fs_names());
    }
    out
}

/// Whether `v[a..b]` names one of `names`.
fn range_in(v: &[char], a: usize, b: usize, names: &Vec<Vec<char>>) -> (r: bool)
    requires
        a <= b <= v@.len(),
    ensures
        r == names@.map_values(|x: Vec<char>| x@).contains(v@.subrange(a as int, b as int)),
{
    let ghost g = |x: Vec<char>| x@;
    let ghost t = v@.subrange(a as int, b as int);
    let mut k: usize = 0;
    while k < names.len()
        invariant
            0 <= k <= names@.len(),
            a <= b <= v@.len(),
            g == (|x: Vec<char>| x@),
            t == v@.subrange(a as int, b as int),
            forall|j: int| 0 <= j < k ==> names@[j]@ != t,
        decreases names@.len() - k,
    {
        if range_eq(v, a, b, names[k].as_slice()) {
            proof {
                assert(names@.map_values(g)[k as int] == t);
            }
            return true;
        }
        k = k + 1;
    }
    proof {
        if names@.map_values(g).contains(t) {
            let j = choose|j: int| 0 <= j < names@.map_values(g).len() && names@.map_values(g)[j] == t;
            assert(names@[j]@ == t);
        }
    }
    false
}

/// A `df -B1 -T -P` row of a real file system.
#[derive(Clone, Debug)]
pub struct DiskUsage {
    pub device: String,
    pub fstype: String,
    pub total: u64,
    pub used: u64,
    pub free: u64,
    pub mount: String,
}

/// The view of a `DiskUsage`: device, type, sizes and mount point.
pub open spec fn disk_view(d: DiskUsage) -> (Seq<char>, Seq<char>, u64, u64, u64, Seq<char>) {
    (d.device@, d.fstype@, d.total, d.used, d.free, d.mount@)
}

/// A `df -B1 -T -P` line of a real file system: device, type, total, used
/// and free bytes, and the mount point (the words from the seventh on,
/// joined with single spaces).
pub open spec fn df_row(l: Seq<char>) -> Option<(Seq<char>, Seq<char>, u64, u64, u64, Seq<char>)> {
    let w = words(l);
    if w.len() < 7 || !real_fs_names().contains(w[1]) {
        None
    } else {
        match (parse_u64_spec(w[2]), parse_u64_spec(w[3]), parse_u64_spec(w[4])) {
            (Some(total), Some(used), Some(free)) => Some(
                (w[0], w[1], total, used, free, join(w.skip(6), seq![' '])),
            ),
            _ => None,
        }
    }
}

/// The file system types that count as real: exactly ext2, ext3, ext4, xfs,
/// btrfs, zfs, f2fs, ntfs, ntfs3, vfat, fat32, exfat, apfs, 9p, drvfs,
/// fuseblk, cifs, nfs and nfs4.
pub proof fn lemma_real_fs_types(t: Seq<char>)
    ensures
        real_fs_names().contains(t) <==> (t == "ext2"@ || t == "ext3"@ || t == "ext4"@ || t == "xfs"@
            || t == "btrfs"@ || t == "zfs"@ || t == "f2fs"@ || t == "ntfs"@ || t == "ntfs3"@ || t
            == "vfat"@ || t == "fat32"@ || t == "exfat"@ || t == "apfs"@ || t == "9p"@ || t
            == "drvfs"@ || t == "fuseblk"@ || t == "cifs"@ || t == "nfs"@ || t == "nfs4"@),
{
    let n = real_fs_names();
    if n.contains(t) {
        let i = choose|i: int| 0 <= i < n.len() && n[i] == t;
        assert(0 <= i < 19);
    }
    assert(n[0] == "ext2"@ && n[1] == "ext3"@ && n[2] == "ext4"@ && n[3] == "xfs"@ && n[4] == "btrfs"@);
    assert(n[5] == "zfs"@ && n[6] == "f2fs"@ && n[7] == "ntfs"@ && n[8] == "ntfs3"@ && n[9] == "vfat"@);
    assert(n[10] == "fat32"@ && n[11] == "exfat"@ && n[12] == "apfs"@ && n[13] == "9p"@);
    assert(n[14] == "drvfs"@ && n[15] == "fuseblk"@ && n[16] == "cifs"@ && n[17] == "nfs"@ && n[18] == "nfs4"@);
}

/// A `df` row of at least seven words whose type is a real file system and
/// whose size, used and available columns are numbers is kept, as (device,
/// type, size, used, available, mount point).
pub proof fn lemma_df_row_kept(l: Seq<char>)
    requires
        words(l).len() >= 7,
        real_fs_names().contains(words(l)[1]),
        parse_u64_spec(words(l)[2]) is Some,
        parse_u64_spec(words(l)[3]) is Some,
        parse_u64_spec(words(l)[4]) is Some,
    ensures
        df_row(l) == Some(
            (
                words(l)[0],
                words(l)[1],
                parse_u64_spec(words(l)[2])->0,
                parse_u64_spec(words(l)[3])->0,
                parse_u64_spec(words(l)[4])->0,
                join(words(l).skip(6), seq![' ']),
            ),
        ),
{
}

/// The real file systems of `df -B1 -T -P` output, its header line left out.
pub open spec fn df_rows(text: Seq<char>) -> Seq<(Seq<char>, Seq<char>, u64, u64, u64, Seq<char>)> {
    filter_map(skip_n(lines(text), 1), |l: Seq<char>| df_row(l))
}

/// The words `ws[from..]` of `v` joined with single spaces.
fn join_words(v: &[char], ws: &Vec<(usize, usize)>, from: usize) -> (out: String)
    requires
        ranges_within(ws@, 0, v@.len() as int),
        from <= ws@.len(),
    ensures
        out@ == join(pieces(v@, ws@).skip(from as int), seq![' ']),
{
    let ghost all = pieces(v@, ws@).skip(from as int);
    let mut out = String::new();
    let mut i = from;
    proof {
        assert(all.take(0) =~= Seq::<Seq<char>>::empty());
    }
    while i < ws.len()
        invariant
            from <= i <= ws@.len(),
            ranges_within(ws@, 0, v@.len() as int),
            all == pieces(v@, ws@).skip(from as int),
            out@ == join(all.take(i - from), seq![' ']),
        decreases ws@.len() - i,
    {
        let (a, b) = ws[i];
        let ghost before = out@;
        proof {
            assert(0 <= ws@[i as int].0 <= ws@[i as int].1 <= v@.len());
            assert(all[i - from] == v@.subrange(a as int, b as int));
            assert(all.take(i - from + 1) =~= all.take(i - from).push(all[i - from]));
            lemma_join_push(all.take(i - from), seq![' '], all[i - from]);
        }
        if i > from {
            push_char(&mut out, ' ');
        }
        push_range(&mut out, v, a, b);
        proof {
            if i > from {
                assert(out@ =~= before + seq![' '] + all[i - from]);
            } else {
                assert(out@ =~= all[i - from]);
            }
        }
        i = i + 1;
    }
    proof {
        assert(all.take(ws@.len() - from) =~= all);
    }
    out
}

/// The row of the `df` line `v[a..b]`.
fn df_line(v: &[char], a: usize, b: usize, fs_names: &Vec<Vec<char>>) -> (r: Option<DiskUsage>)
    requires
        a <= b <= v@.len(),
        fs_names@.map_values(|x: Vec<char>| x@) == real_fs_names(),
    ensures
        match df_row(v@.subrange(a as int, b as int)) {
            Some(d) => r matches Some(x) && disk_view(x) == d,
            None => r is None,
        },
{
    let ws = word_ranges(v, a, b);
    proof {
        assert forall|k: int| 0 <= k < ws@.len() implies 0 <= #[trigger] ws@[k].0 <= ws@[k].1
            <= v@.len() by {
            assert(a <= ws@[k].0 <= ws@[k].1 <= b);
        }
    }
    if ws.len() < 7 {
        return None;
    }
    let ghost w = pieces(v@, ws@);
    proof {
        assert(w[0] == v@.subrange(ws@[0].0 as int, ws@[0].1 as int));
        assert(w[1] == v@.subrange(ws@[1].0 as int, ws@[1].1 as int));
        assert(w[2] == v@.subrange(ws@[2].0 as int, ws@[2].1 as int));
        assert(w[3] == v@.subrange(ws@[3].0 as int, ws@[3].1 as int));
        assert(w[4] == v@.subrange(ws@[4].0 as int, ws@[4].1 as int));
    }
    if !range_in(v, ws[1].0, ws[1].1, fs_names) {
        return None;
    }
    let total = match parse_u64(v, ws[2].0, ws[2].1) {
        Some(n) => n,
        None => return None,
    };
    let used = match parse_u64(v, ws[3].0, ws[3].1) {
        Some(n) => n,
        None => return None,
    };
    let free = match parse_u64(v, ws[4].0, ws[4].1) {
        Some(n) => n,
        None => return None,
    };
    let mount = join_words(v, &ws, 6);
    Some(DiskUsage {
        device: string_of_range(v, ws[0].0, ws[0].1),
        fstype: string_of_range(v, ws[1].0, ws[1].1),
        total,
        used,
        free,
        mount,
    })
}

/// The real file systems that `df -B1 -T -P` listed.
pub fn parse_df(text: &str) -> (out: Vec<DiskUsage>)
    ensures
        out@.map_values(|d: DiskUsage| disk_view(d)) == df_rows(text@),
{
    let v = chars_of(text);
    let fs_names = real_fs_list();
    let ranges = line_ranges(v.as_slice(), 0, v.len());
    let ghost f = |l: Seq<char>| df_row(l);
    let ghost g = |d: DiskUsage| disk_view(d);
    let ghost ls = skip_n(lines(text@), 1);
    proof {
        assert(v@.subrange(0, v@.len() as int) =~= v@);
    }
    let mut out: Vec<DiskUsage> = Vec::new();
    if ranges.len() <= 1 {
        proof {
            assert(ls =~= Seq::<Seq<char>>::empty());
            assert(out@.map_values(g) =~= filter_map(ls, f));
        }
        return out;
    }
    let mut i: usize = 1;
    proof {
        assert(ls.take(0) =~= Seq::<Seq<char>>::empty());
        assert(out@.map_values(g) =~= filter_map(ls.take(0), f));
    }
    while i < ranges.len()
        invariant
            1 <= i <= ranges@.len(),
            v@ == text@,
            fs_names@.map_values(|x: Vec<char>| x@) == real_fs_names(),
            f == (|l: Seq<char>| df_row(l)),
            g == (|d: DiskUsage| disk_view(d)),
            ls == pieces(v@, ranges@).skip(1),
            ranges_within(ranges@, 0, v@.len() as int),
            out@.map_values(g) == filter_map(ls.take(i - 1), f),
        decreases ranges@.len() - i,
    {
        let (a, b) = ranges[i];
        proof {
            assert(0 <= ranges@[i as int].0 <= ranges@[i as int].1 <= v@.len());
            assert(ls[i - 1] == v@.subrange(a as int, b as int));
            assert(ls.take(i as int) =~= ls.take(i - 1).push(ls[i - 1]));
            lemma_filter_map_push(ls.take(i - 1), ls[i - 1], f);
        }
        let ghost before = out@;
        match df_line(v.as_slice(), a, b, &fs_names) {
            Some(d) => {
                out.push(d);
                proof {
                    assert(out@.map_values(g) =~= before.map_values(g).push(disk_view(d)));
                }
            },
            None => {},
        }
        i = i + 1;
    }
    proof {
        assert(ls.take(ranges@.len() - 1) =~= ls);
    }
    out
}


/// The byte counters of one interface in `/proc/net/dev`.
#[derive(Clone, Debug)]
pub struct NetCounters {
    pub name: String,
    pub recv: u64,
    pub sent: u64,
}

/// A `/proc/net/dev` line as (name, bytes received, bytes sent): the
/// trimmed text before the first `:`, then the first and ninth words
/// after it.
pub open spec fn net_dev_row(l: Seq<char>) -> Option<(Seq<char>, u64, u64)> {
    match split_once(l, ':') {
        Some((name, rest)) => {
            let w = words(rest);
            if w.len() >= 9 {
                match (parse_u64_spec(w[0]), parse_u64_spec(w[8])) {
                    (Some(recv), Some(sent)) => Some((trim(name), recv, sent)),
                    _ => None,
                }
            } else {
                None
            }
        },
        None => None,
    }
}

/// The interfaces of a `/proc/net/dev` text, its two header lines left out,
/// in order of their lines.
pub open spec fn net_dev_rows(text: Seq<char>) -> Seq<(Seq<char>, u64, u64)> {
    filter_map(skip_n(lines(text), 2), |l: Seq<char>| net_dev_row(l))
}

/// The view of a `NetCounters`.
pub open spec fn net_view(c: NetCounters) -> (Seq<char>, u64, u64) {
    (c.name@, c.recv, c.sent)
}

/// The counters of the line `v[a..b]`.
fn net_dev_line(v: &[char], a: usize, b: usize) -> (r: Option<NetCounters>)
    requires
        a <= b <= v@.len(),
    ensures
        match net_dev_row(v@.subrange(a as int, b as int)) {
            Some(x) => r matches Some(c) && net_view(c) == x,
            None => r is None,
        },
{
    let ghost l = v@.subrange(a as int, b as int);
    let c = find_char(v, a, b, ':');
    if c == b {
        return None;
    }
    proof {
        assert(l.take(c - a) =~= v@.subrange(a as int, c as int));
        assert(l.skip(c - a + 1) =~= v@.subrange(c + 1, b as int));
    }
    let ws = word_ranges(v, c + 1, b);
    proof {
        assert forall|k: int| 0 <= k < ws@.len() implies 0 <= #[trigger] ws@[k].0 <= ws@[k].1
            <= v@.len() by {
            assert(c + 1 <= ws@[k].0 <= ws@[k].1 <= b);
        }
    }
    if ws.len() < 9 {
        return None;
    }
    proof {
        assert(pieces(v@, ws@)[0] == v@.subrange(ws@[0].0 as int, ws@[0].1 as int));
        assert(pieces(v@, ws@)[8] == v@.subrange(ws@[8].0 as int, ws@[8].1 as int));
    }
    let recv = match parse_u64(v, ws[0].0, ws[0].1) {
        Some(n) => n,
        None => return None,
    };
    let sent = match parse_u64(v, ws[8].0, ws[8].1) {
        Some(n) => n,
        None => return None,
    };
    let (na, nb) = trim_range(v, a, c);
    Some(NetCounters { name: string_of_range(v, na, nb), recv, sent })
}

/// The byte counters that `/proc/net/dev` lists, one per interface line,
/// in order.
pub fn parse_net_dev(text: &str) -> (out: Vec<NetCounters>)
    ensures
        out@.map_values(|c: NetCounters| net_view(c)) == net_dev_rows(text@),
{
    let v = chars_of(text);
    let ranges = line_ranges(v.as_slice(), 0, v.len());
    let ghost f = |l: Seq<char>| net_dev_row(l);
    let ghost g = |c: NetCounters| net_view(c);
    let ghost ls = skip_n(lines(text@), 2);
    proof {
        assert(v@.subrange(0, v@.len() as int) =~= v@);
    }
    let mut out: Vec<NetCounters> = Vec::new();
    if ranges.len() <= 2 {
        proof {
            assert(ls =~= Seq::<Seq<char>>::empty());
            assert(out@.map_values(g) =~= filter_map(ls, f));
        }
        return out;
    }
    let mut i: usize = 2;
    proof {
        assert(ls.take(0) =~= Seq::<Seq<char>>::empty());
        assert(out@.map_values(g) =~= filter_map(ls.take(0), f));
    }
    while i < ranges.len()
        invariant
            2 <= i <= ranges@.len(),
            v@ == text@,
            f == (|l: Seq<char>| net_dev_row(l)),
            g == (|c: NetCounters| net_view(c)),
            ls == pieces(v@, ranges@).skip(2),
            ranges_within(ranges@, 0, v@.len() as int),
            out@.map_values(g) == filter_map(ls.take(i - 2), f),
        decreases ranges@.len() - i,
    {
        let (a, b) = ranges[i];
        proof {
            assert(0 <= ranges@[i as int].0 <= ranges@[i as int].1 <= v@.len());
            assert(ls[i - 2] == v@.subrange(a as int, b as int));
            assert(ls.take(i - 1) =~= ls.take(i - 2).push(ls[i - 2]));
            lemma_filter_map_push(ls.take(i - 2), ls[i - 2], f);
        }
        let ghost before = out@;
        match net_dev_line(v.as_slice(), a, b) {
            Some(c) => {
                out.push(c);
                proof {
                    assert(out@.map_values(g) =~= before.map_values(g).push(net_view(c)));
                }
            },
            None => {},
        }
        i = i + 1;
    }
    proof {
        assert(ls.take(ranges@.len() - 2) =~= ls);
    }
    out
}

/// `std::time::Instant`, which a network snapshot carries as the time it
/// was taken; nothing here reads it.
#[verifier::external_type_specification]
#[verifier::external_body]
pub struct ExInstant(std::time::Instant);

/// The interface counters of the previous network sample, and when it was
/// taken.
#[derive(Clone, Debug, Default)]
pub struct NetSnapshot {
    pub time: Option<std::time::Instant>,
    pub counters: Vec<NetCounters>,
}

/// The (received, sent) counters that `s` holds for the interface `name`:
/// those of its last entry of that name, as a map filled in order keeps
/// them.
pub open spec fn counters_for(s: Seq<(Seq<char>, u64, u64)>, name: Seq<char>) -> Option<(u64, u64)>
    decreases s.len(),
{
    if s.len() == 0 {
        None
    } else if s.last().0 == name {
        Some((s.last().1, s.last().2))
    } else {
        counters_for(s.drop_last(), name)
    }
}

/// The bytes received and sent on `name` since `prev` was taken, each
/// counter less the one that `prev` holds, floored at 0; `None` where
/// `prev` holds no counters for `name`.
pub fn counter_delta(prev: &NetSnapshot, name: &str, recv: u64, sent: u64) -> (r: Option<(u64, u64)>)
    ensures
        r == match counters_for(prev.counters@.map_values(|c: NetCounters| net_view(c)), name@) {
            Some(old) => Some(
                (sat_sub(recv as int, old.0 as int) as u64, sat_sub(sent as int, old.1 as int) as u64),
            ),
            None => None,
        },
{
    let want = chars_of(name);
    let ghost s = prev.counters@.map_values(|c: NetCounters| net_view(c));
    let mut i: usize = prev.counters.len();
    proof {
        assert(s.take(i as int) =~= s);
    }
    while i > 0
        invariant
            i <= prev.counters@.len(),
            s == prev.counters@.map_values(|c: NetCounters| net_view(c)),
            want@ == name@,
            counters_for(s, name@) == counters_for(s.take(i as int), name@),
        decreases i,
    {
        let c = &prev.counters[i - 1];
        let cv = chars_of(c.name.as_str());
        let ghost t = s.take(i as int);
        proof {
            assert(t.last() == net_view(*c));
            assert(t.drop_last() =~= s.take(i - 1));
        }
        if range_eq(cv.as_slice(), 0, cv.len(), want.as_slice()) {
            proof {
                assert(cv@.subrange(0, cv@.len() as int) =~= cv@);
            }
            return Some((recv.saturating_sub(c.recv), sent.saturating_sub(c.sent)));
        }
        proof {
            assert(cv@.subrange(0, cv@.len() as int) =~= cv@);
        }
        i = i - 1;
    }
    None
}

/// The number that the word `k` of `w` reads as, or 0.
pub open spec fn word_number_or_zero(w: Seq<Seq<char>>, k: int) -> int {
    if k < w.len() {
        match parse_u64_spec(w[k]) {
            Some(n) => n as int,
            None => 0,
        }
    } else {
        0
    }
}

/// The CPU time of a `/proc/<pid>/stat` text: user plus system ticks, the
/// fourteenth and fifteenth words (0 for a word that is missing or not a
/// number).
pub open spec fn stat_ticks(text: Seq<char>) -> int {
    word_number_or_zero(words(text), 13) + word_number_or_zero(words(text), 14)
}

/// The number that the word with range `ws[k]` of `v` reads as, or 0.
fn word_u64_or_zero(v: &[char], ws: &Vec<(usize, usize)>, k: usize) -> (n: u64)
    requires
        ranges_within(ws@, 0, v@.len() as int),
    ensures
        n == word_number_or_zero(pieces(v@, ws@), k as int),
{
    if k < ws.len() {
        let (a, b) = ws[k];
        proof {
            assert(0 <= ws@[k as int].0 <= ws@[k as int].1 <= v@.len());
            assert(pieces(v@, ws@)[k as int] == v@.subrange(a as int, b as int));
        }
        match parse_u64(v, a, b) {
            Some(n) => n,
            None => 0,
        }
    } else {
        0
    }
}

/// The CPU ticks of a process from its `stat` file; `None` where the sum
/// does not fit in 64 bits.
pub fn stat_cpu_ticks(stat: &str) -> (r: Option<u64>)
    ensures
        stat_ticks(stat@) <= u64::MAX ==> r == Some(stat_ticks(stat@) as u64),
        stat_ticks(stat@) > u64::MAX ==> r is None,
{
    let v = chars_of(stat);
    proof {
        assert(v@.subrange(0, v@.len() as int) =~= v@);
    }
    let ws = word_ranges(v.as_slice(), 0, v.len());
    let utime = word_u64_or_zero(v.as_slice(), &ws, 13);
    let stime = word_u64_or_zero(v.as_slice(), &ws, 14);
    utime.checked_add(stime)
}

/// A `/proc/<pid>/status` line that starts with `VmRSS:`.
pub open spec fn is_vm_rss_line(l: Seq<char>) -> Option<Seq<char>> {
    if "VmRSS:"@.is_prefix_of(l) {
        Some(l)
    } else {
        None
    }
}

/// The resident memory in bytes that a `status` text gives: the second
/// word of its first `VmRSS:` line, in KiB, times 1024; 0 when there is no
/// such line or no such number.
pub open spec fn vm_rss(text: Seq<char>) -> int {
    match first_some(lines(text), |l: Seq<char>| is_vm_rss_line(l)) {
        Some(l) => {
            let w = words(l);
            if w.len() >= 2 {
                match parse_u64_spec(w[1]) {
                    Some(n) => n * 1024,
                    None => 0,
                }
            } else {
                0
            }
        },
        None => 0,
    }
}

/// The resident memory of a process from its `status` file; `None` where
/// the byte count does not fit in 64 bits.
pub fn vm_rss_bytes(status: &str) -> (r: Option<u64>)
    ensures
        vm_rss(status@) <= u64::MAX ==> r == Some(vm_rss(status@) as u64),
        vm_rss(status@) > u64::MAX ==> r is None,
{
    let v = chars_of(status);
    let key = chars_of("VmRSS:");
    let ranges = line_ranges(v.as_slice(), 0, v.len());
    let ghost f = |l: Seq<char>| is_vm_rss_line(l);
    let ghost ls = lines(status@);
    proof {
        assert(v@.subrange(0, v@.len() as int) =~= v@);
    }
    let mut i: usize = 0;
    while i < ranges.len()
        invariant
            0 <= i <= ranges@.len(),
            v@ == status@,
            key@ == "VmRSS:"@,
            f == (|l: Seq<char>| is_vm_rss_line(l)),
            ls == lines(status@),
            pieces(v@, ranges@) == ls,
            ranges_within(ranges@, 0, v@.len() as int),
            forall|j: int| 0 <= j < i ==> f(#[trigger] ls[j]) is None,
        decreases ranges@.len() - i,
    {
        let (a, b) = ranges[i];
        proof {
            assert(0 <= ranges@[i as int].0 <= ranges@[i as int].1 <= v@.len());
            assert(ls[i as int] == v@.subrange(a as int, b as int));
        }
        if has_prefix(v.as_slice(), a, b, key.as_slice()) {
            proof {
                lemma_first_some_skip(ls, f, i as int);
                assert(ls.skip(i as int)[0] == ls[i as int]);
            }
            let ws = word_ranges(v.as_slice(), a, b);
            if ws.len() < 2 {
                return Some(0);
            }
            proof {
                assert(a <= ws@[1].0 <= ws@[1].1 <= b);
                assert(pieces(v@, ws@)[1] == v@.subrange(ws@[1].0 as int, ws@[1].1 as int));
            }
            return match parse_u64(v.as_slice(), ws[1].0, ws[1].1) {
                Some(n) => n.checked_mul(1024),
                None => Some(0),
            };
        }
        i = i + 1;
    }
    proof {
        lemma_first_some_skip(ls, f, i as int);
        assert(ls.skip(i as int) =~= Seq::<Seq<char>>::empty());
    }
    Some(0)
}

/// Whether a sysfs battery `status` reads as charging: `Charging` or
/// `Full` once trimmed.
pub fn sysfs_charging(status: &str) -> (b: bool)
    ensures
        b == (trim(status@) == "Charging"@ || trim(status@) == "Full"@),
{
    let v = chars_of(status);
    proof {
        assert(v@.subrange(0, v@.len() as int) =~= v@);
    }
    let (a, b) = trim_range(v.as_slice(), 0, v.len());
    let charging = chars_of("Charging");
    let full = chars_of("Full");
    range_eq(v.as_slice(), a, b, charging.as_slice()) || range_eq(v.as_slice(), a, b, full.as_slice())
}

/// The Windows battery status codes that mean charging or on mains: 2
/// (AC), 6 to 9 (charging).
pub open spec fn windows_status_charging(status: u32) -> bool {
    status == 2 || status == 6 || status == 7 || status == 8 || status == 9
}

/// The two fields of the Windows battery query `percent,status`: the
/// trimmed percent text, and whether the status code means charging (when
/// there is a second field and it is a number).
pub open spec fn windows_battery_of(text: Seq<char>) -> (Seq<char>, Option<bool>) {
    let parts = split_on(trim(text), ',');
    (trim(parts[0]), if parts.len() >= 2 {
        match parse_u32_spec(trim(parts[1])) {
            Some(code) => Some(windows_status_charging(code)),
            None => None,
        }
    } else {
        None
    })
}

/// The status code in the second field of the Windows battery query, when
/// there is one and it is a number.
pub open spec fn windows_status_code(text: Seq<char>) -> Option<u32> {
    let parts = split_on(trim(text), ',');
    if parts.len() >= 2 {
        parse_u32_spec(trim(parts[1]))
    } else {
        None
    }
}

/// The battery charges exactly for the Win32_Battery status codes 2, 6,
/// 7, 8 and 9: the charging flag is `Some(true)` for those, `Some(false)`
/// for any other number, and `None` without a numeric status.
pub proof fn lemma_windows_charging_codes(text: Seq<char>)
    ensures
        windows_battery_of(text).1 == match windows_status_code(text) {
            Some(code) => Some(code == 2 || (6 <= code && code <= 9)),
            None => None,
        },
{
}

/// The percent text and charging state that the Windows battery query
/// printed.
pub fn windows_battery(text: &str) -> (r: (String, Option<bool>))
    ensures
        r.0@ == windows_battery_of(text@).0,
        r.1 == windows_battery_of(text@).1,
        r.1 == match windows_status_code(text@) {
            Some(code) => Some(code == 2 || (6 <= code && code <= 9)),
            None => None,
        },
{
    let v = chars_of(text);
    proof {
        assert(v@.subrange(0, v@.len() as int) =~= v@);
    }
    let (ta, tb) = trim_range(v.as_slice(), 0, v.len());
    let parts = split_ranges(v.as_slice(), ta, tb, ',');
    let ghost ps = split_on(trim(text@), ',');
    proof {
        assert(ta <= parts@[0].0 <= parts@[0].1 <= tb);
        assert(ps[0] == v@.subrange(parts@[0].0 as int, parts@[0].1 as int));
    }
    let (pa, pb) = trim_range(v.as_slice(), parts[0].0, parts[0].1);
    let percent = string_of_range(v.as_slice(), pa, pb);
    if parts.len() < 2 {
        return (percent, None);
    }
    proof {
        assert(ta <= parts@[1].0 <= parts@[1].1 <= tb);
        assert(ps[1] == v@.subrange(parts@[1].0 as int, parts@[1].1 as int));
    }
    let (sa, sb) = trim_range(v.as_slice(), parts[1].0, parts[1].1);
    let charging = match parse_u32(v.as_slice(), sa, sb) {
        Some(code) => Some(code == 2 || code == 6 || code == 7 || code == 8 || code == 9),
        None => None,
    };
    (percent, charging)
}

/// The texts with which `nvidia-smi` says that a value is missing.
pub open spec fn nv_missing(s: Seq<char>) -> bool {
    s.len() == 0 || s == "[N/A]"@ || s == "[Not Supported]"@ || s == "N/A"@
}

/// The number text of an `nvidia-smi` field: trimmed, and `None` when
/// the field says the value is missing.
pub fn nv_number_text(raw: &str) -> (r: Option<String>)
    ensures
        nv_missing(trim(raw@)) ==> r is None,
        !nv_missing(trim(raw@)) ==> (r matches Some(s) && s@ == trim(raw@)),
{
    let v = chars_of(raw);
    proof {
        assert(v@.subrange(0, v@.len() as int) =~= v@);
    }
    let (a, b) = trim_range(v.as_slice(), 0, v.len());
    let na = chars_of("[N/A]");
    let ns = chars_of("[Not Supported]");
    let n2 = chars_of("N/A");
    if a == b || range_eq(v.as_slice(), a, b, na.as_slice()) || range_eq(
        v.as_slice(),
        a,
        b,
        ns.as_slice(),
    ) || range_eq(v.as_slice(), a, b, n2.as_slice()) {
        None
    } else {
        Some(string_of_range(v.as_slice(), a, b))
    }
}

/// A CSV line of `nvidia-smi` as trimmed fields, kept when it has exactly
/// `n` of them.
pub open spec fn nv_row(l: Seq<char>, n: int) -> Option<Seq<Seq<char>>> {
    let parts = split_on(l, ',');
    if parts.len() == n {
        Some(parts.map_values(|p: Seq<char>| trim(p)))
    } else {
        None
    }
}

/// The rows of `nvidia-smi --format=csv,noheader,nounits` output that have
/// `n` fields, each field trimmed.
pub fn nv_rows(text: &str, n: usize) -> (out: Vec<Vec<String>>)
    ensures
        out@.map_values(|r: Vec<String>| r@.map_values(|s: String| s@)) == filter_map(
            lines(text@),
            |l: Seq<char>| nv_row(l, n as int),
        ),
{
    let v = chars_of(text);
    let ranges = line_ranges(v.as_slice(), 0, v.len());
    let ghost f = |l: Seq<char>| nv_row(l, n as int);
    let ghost g = |r: Vec<String>| r@.map_values(|s: String| s@);
    let ghost ls = lines(text@);
    proof {
        assert(v@.subrange(0, v@.len() as int) =~= v@);
    }
    let mut out: Vec<Vec<String>> = Vec::new();
    let mut i: usize = 0;
    while i < ranges.len()
        invariant
            0 <= i <= ranges@.len(),
            v@ == text@,
            f == (|l: Seq<char>| nv_row(l, n as int)),
            g == (|r: Vec<String>| r@.map_values(|s: String| s@)),
            ls == lines(text@),
            pieces(v@, ranges@) == ls,
            ranges_within(ranges@, 0, v@.len() as int),
            out@.map_values(g) == filter_map(ls.take(i as int), f),
        decreases ranges@.len() - i,
    {
        let (a, b) = ranges[i];
        proof {
            assert(0 <= ranges@[i as int].0 <= ranges@[i as int].1 <= v@.len());
            assert(ls[i as int] == v@.subrange(a as int, b as int));
            assert(ls.take(i + 1) =~= ls.take(i as int).push(ls[i as int]));
            lemma_filter_map_push(ls.take(i as int), ls[i as int], f);
        }
        let ghost before = out@;
        let parts = split_ranges(v.as_slice(), a, b, ',');
        if parts.len() == n {
            let mut row: Vec<String> = Vec::new();
            let mut k: usize = 0;
            let ghost ps = pieces(v@, parts@);
            while k < parts.len()
                invariant
                    0 <= k <= parts@.len(),
                    a <= b <= v@.len(),
                    ps == pieces(v@, parts@),
                    ranges_within(parts@, a as int, b as int),
                    row@.map_values(|s: String| s@) == ps.take(k as int).map_values(
                        |p: Seq<char>| trim(p),
                    ),
                decreases parts@.len() - k,
            {
                let (pa, pb) = parts[k];
                proof {
                    assert(a <= parts@[k as int].0 <= parts@[k as int].1 <= b);
                    assert(ps[k as int] == v@.subrange(pa as int, pb as int));
                }
                let (x, y) = trim_range(v.as_slice(), pa, pb);
                let ghost row_before = row@;
                row.push(string_of_range(v.as_slice(), x, y));
                proof {
                    assert(ps.take(k + 1) =~= ps.take(k as int).push(ps[k as int]));
                    assert(row@.map_values(|s: String| s@) =~= row_before.map_values(|s: String| s@).push(
                        trim(ps[k as int]),
                    ));
                    assert(ps.take(k + 1).map_values(|p: Seq<char>| trim(p)) =~= ps.take(
                        k as int,
                    ).map_values(|p: Seq<char>| trim(p)).push(trim(ps[k as int])));
                }
                k = k + 1;
            }
            proof {
                assert(ps.take(parts@.len() as int) =~= ps);
            }
            out.push(row);
            proof {
                assert(out@.map_values(g) =~= before.map_values(g).push(g(row)));
            }
        }
        i = i + 1;
    }
    proof {
        assert(ls.take(ranges@.len() as int) =~= ls);
    }
    out
}


/// The `physical id:core id` key of a `/proc/cpuinfo` block, when it names
/// both.
pub open spec fn core_key(block: Seq<char>) -> Option<Seq<char>> {
    match (
        first_some(lines(block), |l: Seq<char>| prefixed_value(l, "physical id"@)),
        first_some(lines(block), |l: Seq<char>| prefixed_value(l, "core id"@)),
    ) {
        (Some(p), Some(c)) => Some(p + seq![':'] + c),
        _ => None,
    }
}

/// The distinct physical cores that `/proc/cpuinfo` lists, one key per
/// processor block (blocks are separated by blank lines).
pub open spec fn core_keys(text: Seq<char>) -> Set<Seq<char>> {
    filter_map(split_str(text, "\n\n"@), |b: Seq<char>| core_key(b)).to_set()
}

/// The physical id that a `/proc/cpuinfo` block names first, if any.
pub open spec fn block_physical_id(block: Seq<char>) -> Option<Seq<char>> {
    first_some(lines(block), |l: Seq<char>| prefixed_value(l, "physical id"@))
}

/// The core id that a `/proc/cpuinfo` block names first, if any.
pub open spec fn block_core_id(block: Seq<char>) -> Option<Seq<char>> {
    first_some(lines(block), |l: Seq<char>| prefixed_value(l, "core id"@))
}

/// The (physical id, core id) pair of a block that names both.
pub open spec fn block_pair(block: Seq<char>) -> Option<(Seq<char>, Seq<char>)> {
    match (block_physical_id(block), block_core_id(block)) {
        (Some(p), Some(c)) => Some((p, c)),
        _ => None,
    }
}

/// The distinct (physical id, core id) pairs of the processor blocks of
/// `/proc/cpuinfo`.
pub open spec fn core_pairs(text: Seq<char>) -> Set<(Seq<char>, Seq<char>)> {
    filter_map(split_str(text, "\n\n"@), |b: Seq<char>| block_pair(b)).to_set()
}

/// No `:` in `s`.
pub open spec fn colon_free(s: Seq<char>) -> bool {
    forall|i: int| 0 <= i < s.len() ==> s[i] != ':'
}

/// The key written for a pair.
pub open spec fn pair_key(p: (Seq<char>, Seq<char>)) -> Seq<char> {
    p.0 + seq![':'] + p.1
}

/// Keys of pairs whose physical ids hold no `:` tell the pairs apart.
pub proof fn lemma_pair_key_injective(a: (Seq<char>, Seq<char>), b: (Seq<char>, Seq<char>))
    requires
        colon_free(a.0),
        colon_free(b.0),
        pair_key(a) == pair_key(b),
    ensures
        a == b,
{
    let k = pair_key(a);
    if a.0.len() < b.0.len() {
        assert(k[a.0.len() as int] == ':');
        assert(pair_key(b)[a.0.len() as int] == b.0[a.0.len() as int]);
    } else if b.0.len() < a.0.len() {
        assert(pair_key(b)[b.0.len() as int] == ':');
        assert(k[b.0.len() as int] == a.0[b.0.len() as int]);
    } else {
        assert(a.0 =~= k.take(a.0.len() as int));
        assert(b.0 =~= pair_key(b).take(b.0.len() as int));
        assert(a.1 =~= k.skip(a.0.len() as int + 1));
        assert(b.1 =~= pair_key(b).skip(b.0.len() as int + 1));
    }
}

/// A block has a core key exactly when it names both a physical id and a
/// core id, and two such blocks (with physical ids free of `:`) have the
/// same key exactly when they name the same physical id and the same core
/// id: cores on different sockets are told apart.
pub proof fn lemma_core_key_pairs(a: Seq<char>, b: Seq<char>)
    requires
        block_physical_id(a) matches Some(p) ==> colon_free(p),
        block_physical_id(b) matches Some(p) ==> colon_free(p),
    ensures
        core_key(a) is Some <==> block_physical_id(a) is Some && block_core_id(a) is Some,
        core_key(a) is Some && core_key(b) is Some ==> (core_key(a) == core_key(b) <==> (
        block_physical_id(a) == block_physical_id(b) && block_core_id(a) == block_core_id(b))),
{
    if core_key(a) is Some && core_key(b) is Some {
        let pa = block_pair(a)->0;
        let pb = block_pair(b)->0;
        assert(core_key(a) == Some(pair_key(pa)));
        assert(core_key(b) == Some(pair_key(pb)));
        if core_key(a) == core_key(b) {
            lemma_pair_key_injective(pa, pb);
        }
    }
}

/// The core keys are the pair keys of the blocks that name both ids.
proof fn lemma_core_keys_of_pairs(bs: Seq<Seq<char>>)
    ensures
        filter_map(bs, |b: Seq<char>| core_key(b)) == filter_map(bs, |b: Seq<char>| block_pair(b)).map_values(
            |p: (Seq<char>, Seq<char>)| pair_key(p),
        ),
    decreases bs.len(),
{
    let f = |b: Seq<char>| core_key(b);
    let g = |b: Seq<char>| block_pair(b);
    let h = |p: (Seq<char>, Seq<char>)| pair_key(p);
    if bs.len() == 0 {
        assert(filter_map(bs, f) =~= filter_map(bs, g).map_values(h));
    } else {
        let front = bs.drop_last();
        let x = bs.last();
        assert(bs =~= front.push(x));
        lemma_core_keys_of_pairs(front);
        lemma_filter_map_push(front, x, f);
        lemma_filter_map_push(front, x, g);
        match g(x) {
            Some(p) => {
                assert(f(x) == Some(h(p)));
                assert(filter_map(front, g).push(p).map_values(h) =~= filter_map(front, g).map_values(h).push(
                    h(p),
                ));
            },
            None => {
                assert(f(x) is None);
            },
        }
    }
}

/// `physical_cores` counts distinct (physical id, core id) pairs: where no
/// physical id holds a `:`, there are as many core keys as distinct pairs.
pub proof fn lemma_physical_cores_count_pairs(text: Seq<char>)
    requires
        forall|p: (Seq<char>, Seq<char>)| #[trigger] core_pairs(text).contains(p) ==> colon_free(p.0),
    ensures
        core_keys(text).len() == core_pairs(text).len(),
{
    let bs = split_str(text, "\n\n"@);
    let ps = filter_map(bs, |b: Seq<char>| block_pair(b));
    let h = |p: (Seq<char>, Seq<char>)| pair_key(p);
    lemma_core_keys_of_pairs(bs);
    ps.lemma_to_set_map_commutes(h);
    vstd::seq_lib::seq_to_set_is_finite(ps);
    assert(core_keys(text) == ps.map_values(h).to_set());
    assert forall|x: (Seq<char>, Seq<char>), y: (Seq<char>, Seq<char>)|
        ps.to_set().contains(x) && ps.to_set().contains(y) && #[trigger] h(x) == #[trigger] h(y) implies x == y by {
        assert(core_pairs(text).contains(x) && core_pairs(text).contains(y));
        lemma_pair_key_injective(x, y);
    }
    vstd::set_lib::lemma_map_size(ps.to_set(), core_keys(text), h);
}

/// Whether the characters of `k` are among `keys`.
fn contains_key(keys: &Vec<Vec<char>>, k: &Vec<char>) -> (r: bool)
    ensures
        r == keys@.map_values(|x: Vec<char>| x@).contains(k@),
{
    proof {
        assert(k@.subrange(0, k@.len() as int) =~= k@);
    }
    range_in(k.as_slice(), 0, k.len(), keys)
}

/// The number of physical cores in `/proc/cpuinfo`: the number of distinct
/// (physical id, core id) pairs of its processor blocks; `None` when no
/// block names both.
pub fn physical_cores(cpuinfo: &str) -> (r: Option<usize>)
    ensures
        core_keys(cpuinfo@).len() == 0 ==> r is None,
        core_keys(cpuinfo@).len() > 0 ==> r == Some(core_keys(cpuinfo@).len() as usize),
        (forall|p: (Seq<char>, Seq<char>)| #[trigger] core_pairs(cpuinfo@).contains(p) ==> colon_free(p.0))
            ==> r == (if core_pairs(cpuinfo@).len() == 0 {
            None
        } else {
            Some(core_pairs(cpuinfo@).len() as usize)
        }),
{
    let v = chars_of(cpuinfo);
    let sep = chars_of("\n\n");
    let phys = chars_of("physical id");
    let core = chars_of("core id");
    proof {
        reveal_strlit("\n\n");
        assert(v@.subrange(0, v@.len() as int) =~= v@);
    }
    let blocks = split_str_ranges(v.as_slice(), 0, v.len(), sep.as_slice());
    let ghost bs = split_str(cpuinfo@, "\n\n"@);
    let ghost f = |b: Seq<char>| core_key(b);
    let ghost g = |x: Vec<char>| x@;
    let mut keys: Vec<Vec<char>> = Vec::new();
    let mut i: usize = 0;
    while i < blocks.len()
        invariant
            0 <= i <= blocks@.len(),
            v@ == cpuinfo@,
            phys@ == "physical id"@,
            core@ == "core id"@,
            f == (|b: Seq<char>| core_key(b)),
            g == (|x: Vec<char>| x@),
            bs == split_str(cpuinfo@, "\n\n"@),
            pieces(v@, blocks@) == bs,
            ranges_within(blocks@, 0, v@.len() as int),
            keys@.map_values(g).no_duplicates(),
            keys@.map_values(g).to_set() == filter_map(bs.take(i as int), f).to_set(),
        decreases blocks@.len() - i,
    {
        let (a, b) = blocks[i];
        proof {
            assert(0 <= blocks@[i as int].0 <= blocks@[i as int].1 <= v@.len());
            assert(bs[i as int] == v@.subrange(a as int, b as int));
            assert(bs.take(i + 1) =~= bs.take(i as int).push(bs[i as int]));
            lemma_filter_map_push(bs.take(i as int), bs[i as int], f);
        }
        let p = first_prefixed_value(v.as_slice(), a, b, phys.as_slice());
        let c = first_prefixed_value(v.as_slice(), a, b, core.as_slice());
        match (p, c) {
            (Some((pa, pb)), Some((ca, cb))) => {
                let mut k: Vec<char> = Vec::new();
                let mut j = pa;
                while j < pb
                    invariant
                        pa <= j <= pb <= v@.len(),
                        k@ == v@.subrange(pa as int, j as int),
                    decreases pb - j,
                {
                    k.push(v[j]);
                    proof {
                        assert(v@.subrange(pa as int, j + 1) =~= v@.subrange(pa as int, j as int).push(v@[j as int]));
                    }
                    j = j + 1;
                }
                k.push(':');
                let ghost kp = k@;
                let mut j = ca;
                while j < cb
                    invariant
                        ca <= j <= cb <= v@.len(),
                        k@ == kp + v@.subrange(ca as int, j as int),
                    decreases cb - j,
                {
                    k.push(v[j]);
                    proof {
                        assert(v@.subrange(ca as int, j + 1) =~= v@.subrange(ca as int, j as int).push(v@[j as int]));
                    }
                    j = j + 1;
                }
                let ghost key = k@;
                proof {
                    assert(key =~= v@.subrange(pa as int, pb as int) + seq![':'] + v@.subrange(ca as int, cb as int));
                    assert(f(bs[i as int]) == Some(key));
                }
                let ghost before = keys@.map_values(g);
                if !contains_key(&keys, &k) {
                    keys.push(k);
                    proof {
                        assert(keys@.map_values(g) =~= before.push(key));
                        before.lemma_push_to_set_commute(key);
                        filter_map(bs.take(i as int), f).lemma_push_to_set_commute(key);
                        assert forall|x: int, y: int| 0 <= x < y < keys@.map_values(g).len() implies keys@.map_values(g)[x] != keys@.map_values(g)[y] by {
                            if y == before.len() {
                                assert(before.contains(before[x]));
                            }
                        }
                    }
                } else {
                    proof {
                        filter_map(bs.take(i as int), f).lemma_push_to_set_commute(key);
                        assert(before.to_set().contains(key));
                        assert(before.to_set().insert(key) =~= before.to_set());
                    }
                }
            },
            _ => {},
        }
        i = i + 1;
    }
    proof {
        assert(bs.take(blocks@.len() as int) =~= bs);
        keys@.map_values(g).unique_seq_to_set();
        if forall|p: (Seq<char>, Seq<char>)| #[trigger] core_pairs(cpuinfo@).contains(p) ==> colon_free(p.0) {
            lemma_physical_cores_count_pairs(cpuinfo@);
        }
    }
    if keys.len() == 0 {
        None
    } else {
        Some(keys.len())
    }
}

} // verus!
