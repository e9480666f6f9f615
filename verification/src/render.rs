//! The layout of the one-shot reports: section headings, aligned
//! key/value rows, truncation of long names, the status, details and
//! sensors pages, and every member of the JSON report. Readings that are
//! floating-point numbers arrive already written as text.
use vstd::prelude::*;

use crate::text::{chars_of, pad_right, push_char, push_dec, push_padded_right, push_range, push_repeat, dec};
use crate::collectors::SystemDetails;
use crate::{duration_text, fmt_duration, json_escape, json_escaped};

verus! {

/// The character views of a list of string pairs.
pub open spec fn pair_views(rows: Seq<(String, String)>) -> Seq<(Seq<char>, Seq<char>)> {
    rows.map_values(|p: (String, String)| (p.0@, p.1@))
}

/// `items` joined with `sep` between neighbours.
pub open spec fn join(items: Seq<Seq<char>>, sep: Seq<char>) -> Seq<char> {
    if items.len() == 0 {
        seq![]
    } else {
        items[0] + items.drop_first().map_values(|x: Seq<char>| sep + x).flatten()
    }
}

/// Joining one more item onto a joined list.
pub proof fn lemma_join_push(items: Seq<Seq<char>>, sep: Seq<char>, x: Seq<char>)
    ensures
        join(items.push(x), sep) == if items.len() == 0 {
            x
        } else {
            join(items, sep) + sep + x
        },
{
    let f = |y: Seq<char>| sep + y;
    if items.len() == 0 {
        assert(items.push(x).drop_first() =~= Seq::<Seq<char>>::empty());
        assert(items.push(x).drop_first().map_values(f).flatten() =~= Seq::<char>::empty());
        assert(x + Seq::<char>::empty() =~= x);
    } else {
        assert(items.push(x).drop_first() =~= items.drop_first().push(x));
        assert(items.drop_first().push(x).map_values(f) =~= items.drop_first().map_values(f).push(
            sep + x,
        ));
        items.drop_first().map_values(f).lemma_flatten_push(sep + x);
        assert(join(items.push(x), sep) =~= join(items, sep) + sep + x);
    }
}

/// `section`: a blank line, the title between `==` marks, then the body.
pub open spec fn section_text(title: Seq<char>, body: Seq<char>) -> Seq<char> {
    seq!['\n', '=', '=', ' '] + title + seq![' ', '=', '=', '\n'] + body
}

/// One `kv` row: the key left aligned in 16 columns, a space, the value.
pub open spec fn kv_row(p: (Seq<char>, Seq<char>)) -> Seq<char> {
    pad_right(p.0, 16) + seq![' '] + p.1 + seq!['\n']
}

/// `kv`: one row per pair, in order.
pub open spec fn kv_text(rows: Seq<(Seq<char>, Seq<char>)>) -> Seq<char> {
    rows.map_values(|p: (Seq<char>, Seq<char>)| kv_row(p)).flatten()
}

/// A section of the report.
pub fn section(title: &str, body: &str) -> (out: String)
    ensures
        out@ == section_text(title@, body@),
{
    let mut out = String::new();
    push_char(&mut out, '\n');
    push_char(&mut out, '=');
    push_char(&mut out, '=');
    push_char(&mut out, ' ');
    out.append(title);
    push_char(&mut out, ' ');
    push_char(&mut out, '=');
    push_char(&mut out, '=');
    push_char(&mut out, '\n');
    out.append(body);
    proof {
        assert(out@ =~= section_text(title@, body@));
    }
    out
}

/// Aligned key/value rows.
pub fn kv(rows: &[(String, String)]) -> (out: String)
    ensures
        out@ == kv_text(pair_views(rows@)),
{
    let mut out = String::new();
    let mut i: usize = 0;
    let ghost f = |p: (Seq<char>, Seq<char>)| kv_row(p);
    while i < rows.len()
        invariant
            0 <= i <= rows@.len(),
            f == (|p: (Seq<char>, Seq<char>)| kv_row(p)),
            out@ == pair_views(rows@).take(i as int).map_values(f).flatten(),
        decreases rows@.len() - i,
    {
        let ghost before = out@;
        let (k, v) = &rows[i];
        push_padded_right(&mut out, k.as_str(), 16);
        push_char(&mut out, ' ');
        out.append(v.as_str());
        push_char(&mut out, '\n');
        proof {
            let p = pair_views(rows@)[i as int];
            assert(p == (k@, v@));
            assert(out@ =~= before + kv_row(p));
            assert(pair_views(rows@).take(i + 1) =~= pair_views(rows@).take(i as int).push(p));
            assert(pair_views(rows@).take(i + 1).map_values(f) =~= pair_views(rows@).take(
                i as int,
            ).map_values(f).push(kv_row(p)));
            pair_views(rows@).take(i as int).map_values(f).lemma_flatten_push(kv_row(p));
        }
        i = i + 1;
    }
    proof {
        assert(pair_views(rows@).take(rows@.len() as int) =~= pair_views(rows@));
    }
    out
}

/// Aligned key/value rows, or the line `empty` when there are none.
pub fn kv_or_empty(rows: &[(String, String)], empty: &str) -> (out: String)
    ensures
        rows@.len() == 0 ==> out@ == empty@ + seq!['\n'],
        rows@.len() > 0 ==> out@ == kv_text(pair_views(rows@)),
{
    if rows.len() == 0 {
        let mut out = String::new();
        out.append(empty);
        push_char(&mut out, '\n');
        proof {
            assert(out@ =~= empty@ + seq!['\n']);
        }
        out
    } else {
        kv(rows)
    }
}

/// `truncate_left`: the value, or `~` and its last `max - 1` characters
/// when it is longer than `max`.
pub open spec fn truncated_left(v: Seq<char>, max: int) -> Seq<char> {
    if v.len() <= max {
        v
    } else {
        seq!['~'] + v.skip(v.len() - (max - 1))
    }
}

/// `truncate_right`: the value, or its first `max - 1` characters and `~`
/// when it is longer than `max`.
pub open spec fn truncated_right(v: Seq<char>, max: int) -> Seq<char> {
    if v.len() <= max {
        v
    } else {
        v.take(max - 1) + seq!['~']
    }
}

/// Truncation never leaves more than `max` characters, and changes only
/// values that are longer; the cut is marked with `~` at the front or the
/// end.
pub proof fn lemma_truncation_fits(v: Seq<char>, max: int)
    requires
        max >= 1,
    ensures
        truncated_left(v, max).len() == if v.len() <= max { v.len() as int } else { max },
        truncated_right(v, max).len() == if v.len() <= max { v.len() as int } else { max },
        v.len() > max ==> truncated_left(v, max)[0] == '~' && truncated_right(v, max).last() == '~',
        v.len() > max ==> truncated_left(v, max).skip(1) == v.skip(v.len() - (max - 1))
            && truncated_right(v, max).take(max - 1) == v.take(max - 1),
{
    if v.len() > max {
        assert(truncated_left(v, max).skip(1) =~= v.skip(v.len() - (max - 1)));
        assert(truncated_right(v, max).take(max - 1) =~= v.take(max - 1));
    }
}

/// Keeps the end of a long value, marking the cut with `~`.
pub fn truncate_left(value: &str, max: usize) -> (out: String)
    requires
        value@.len() <= max || max >= 1,
    ensures
        out@ == truncated_left(value@, max as int),
{
    let v = chars_of(value);
    if v.len() <= max {
        String::from_str(value)
    } else {
        let mut out = String::new();
        push_char(&mut out, '~');
        push_range(&mut out, v.as_slice(), v.len() - (max - 1), v.len());
        proof {
            assert(out@ =~= truncated_left(value@, max as int));
        }
        out
    }
}

/// Keeps the start of a long value, marking the cut with `~`.
pub fn truncate_right(value: &str, max: usize) -> (out: String)
    requires
        value@.len() <= max || max >= 1,
    ensures
        out@ == truncated_right(value@, max as int),
{
    let v = chars_of(value);
    if v.len() <= max {
        String::from_str(value)
    } else {
        let mut out = String::new();
        push_range(&mut out, v.as_slice(), 0, max - 1);
        push_char(&mut out, '~');
        proof {
            assert(out@ =~= truncated_right(value@, max as int));
        }
        out
    }
}

/// `json_opt`: the escaped value in quotes, or `null`.
pub open spec fn json_opt_text(value: Option<Seq<char>>) -> Seq<char> {
    match value {
        Some(v) => seq!['"'] + json_escaped(v) + seq!['"'],
        None => seq!['n', 'u', 'l', 'l'],
    }
}

/// An optional string as a JSON value.
pub fn json_opt(value: Option<&str>) -> (out: String)
    ensures
        out@ == json_opt_text(
            match value {
                Some(v) => Some(v@),
                None => None,
            },
        ),
{
    match value {
        Some(v) => {
            let mut out = String::new();
            push_char(&mut out, '"');
            let e = json_escape(v);
            out.append(e.as_str());
            push_char(&mut out, '"');
            proof {
                assert(out@ =~= seq!['"'] + json_escaped(v@) + seq!['"']);
            }
            out
        },
        None => {
            let mut out = String::new();
            push_char(&mut out, 'n');
            push_char(&mut out, 'u');
            push_char(&mut out, 'l');
            push_char(&mut out, 'l');
            proof {
                assert(out@ =~= seq!['n', 'u', 'l', 'l']);
            }
            out
        },
    }
}

/// One `"key":"value"` member of `json_pairs`.
pub open spec fn json_member(p: (Seq<char>, Seq<char>)) -> Seq<char> {
    seq!['"'] + json_escaped(p.0) + seq!['"', ':', '"'] + json_escaped(p.1) + seq!['"']
}

/// `json_pairs`: a JSON object with one string member per pair, in order.
pub open spec fn json_pairs_text(rows: Seq<(Seq<char>, Seq<char>)>) -> Seq<char> {
    seq!['{'] + join(rows.map_values(|p: (Seq<char>, Seq<char>)| json_member(p)), seq![','])
        + seq!['}']
}

/// String pairs as a JSON object.
pub fn json_pairs(rows: &[(String, String)]) -> (out: String)
    ensures
        out@ == json_pairs_text(pair_views(rows@)),
{
    let ghost f = |p: (Seq<char>, Seq<char>)| json_member(p);
    let mut body = String::new();
    let mut i: usize = 0;
    while i < rows.len()
        invariant
            0 <= i <= rows@.len(),
            f == (|p: (Seq<char>, Seq<char>)| json_member(p)),
            body@ == join(pair_views(rows@).take(i as int).map_values(f), seq![',']),
        decreases rows@.len() - i,
    {
        let ghost before = body@;
        let (k, v) = &rows[i];
        if i > 0 {
            push_char(&mut body, ',');
        }
        push_char(&mut body, '"');
        let ek = json_escape(k.as_str());
        body.append(ek.as_str());
        push_char(&mut body, '"');
        push_char(&mut body, ':');
        push_char(&mut body, '"');
        let ev = json_escape(v.as_str());
        body.append(ev.as_str());
        push_char(&mut body, '"');
        proof {
            let p = pair_views(rows@)[i as int];
            assert(p == (k@, v@));
            let items = pair_views(rows@).take(i as int).map_values(f);
            assert(pair_views(rows@).take(i + 1).map_values(f) =~= items.push(json_member(p)));
            lemma_join_push(items, seq![','], json_member(p));
            if i > 0 {
                assert(body@ =~= before + seq![','] + json_member(p));
            } else {
                assert(body@ =~= json_member(p));
            }
        }
        i = i + 1;
    }
    proof {
        assert(pair_views(rows@).take(rows@.len() as int) =~= pair_views(rows@));
    }
    let mut out = String::new();
    push_char(&mut out, '{');
    out.append(body.as_str());
    push_char(&mut out, '}');
    proof {
        assert(out@ =~= json_pairs_text(pair_views(rows@)));
    }
    out
}

/// The page header: title line, then a rule of 78 dashes.
pub open spec fn header_text(user: Seq<char>, host: Seq<char>, page: Seq<char>, page_num: nat) -> Seq<char> {
    "healthstatus | "@ + user + seq!['@'] + host + " | "@ + page + seq![' ', '('] + dec(page_num)
        + "/3)\n"@ + Seq::new(78, |_i: int| '-') + seq!['\n']
}

/// The header of a one-shot page.
pub fn header(user: &str, hostname: &str, page: &str, page_num: usize) -> (out: String)
    ensures
        out@ == header_text(user@, hostname@, page@, page_num as nat),
{
    let mut out = String::from_str("healthstatus | ");
    out.append(user);
    push_char(&mut out, '@');
    out.append(hostname);
    out.append(" | ");
    out.append(page);
    push_char(&mut out, ' ');
    push_char(&mut out, '(');
    push_dec(&mut out, page_num as u64);
    out.append("/3)\n");
    push_repeat(&mut out, '-', 78);
    push_char(&mut out, '\n');
    proof {
        assert(out@ =~= header_text(user@, hostname@, page@, page_num as nat));
    }
    out
}

/// The key line at the foot of the one-shot pages.
pub open spec fn nav_line() -> Seq<char> {
    "[1] Status  [2] Details  [3] Sensors  [tab] next  [q] quit\n"@
}

/// `kv_or_empty`: the rows, or the line `empty` when there are none.
pub open spec fn kv_or_empty_text(rows: Seq<(Seq<char>, Seq<char>)>, empty: Seq<char>) -> Seq<char> {
    if rows.len() == 0 {
        empty + seq!['\n']
    } else {
        kv_text(rows)
    }
}

/// A detail that may be missing, shown as `-` when it is.
pub open spec fn or_dash(v: Option<String>) -> Seq<char> {
    match v {
        Some(s) => s@,
        None => seq!['-'],
    }
}

/// The host rows of the system details: distro, kernel, architecture,
/// CPU model under `cpu_label`, the VM's RAM as `ram` shows it under
/// `ram_label`, then the Windows facts in order.
pub open spec fn host_rows_of(
    d: SystemDetails,
    cpu_label: Seq<char>,
    ram_label: Seq<char>,
    ram: Seq<char>,
) -> Seq<(Seq<char>, Seq<char>)> {
    seq![
        ("Distro"@, or_dash(d.distro)),
        ("Kernel"@, d.kernel@),
        ("Arch"@, d.arch@),
        (cpu_label, or_dash(d.cpu_model)),
        (ram_label, ram),
    ] + pair_views(d.windows@)
}

/// The rows of the Host section of the details page.
pub open spec fn details_host_rows(d: SystemDetails, ram: Seq<char>) -> Seq<(Seq<char>, Seq<char>)> {
    host_rows_of(d, "CPU as seen"@, "WSL VM RAM"@, ram)
}

/// The details page: header, the Host section, the Wi-Fi section (or a
/// line saying there is no Wi-Fi interface), and the key line.
pub open spec fn details_page_text(user: Seq<char>, host: Seq<char>, d: SystemDetails, ram: Seq<char>) -> Seq<char> {
    header_text(user, host, "System details"@, 2) + section_text("Host"@, kv_text(details_host_rows(d, ram)))
        + section_text("Wi-Fi"@, kv_or_empty_text(pair_views(d.wifi@), "no Wi-Fi interface"@))
        + nav_line()
}

/// A copy of a string, or `-` in place of a missing one.
fn string_or_dash(v: &Option<String>) -> (out: String)
    ensures
        out@ == or_dash(*v),
{
    match v {
        Some(s) => s.clone(),
        None => {
            let mut out = String::new();
            push_char(&mut out, '-');
            proof {
                assert(out@ =~= seq!['-']);
            }
            out
        },
    }
}

/// The host rows of the system details, with the labels of the CPU and
/// RAM rows given; `ram_text` is the VM's RAM as it is shown.
pub fn host_rows(details: &SystemDetails, cpu_label: &str, ram_label: &str, ram_text: &str) -> (rows: Vec<(String, String)>)
    ensures
        pair_views(rows@) == host_rows_of(*details, cpu_label@, ram_label@, ram_text@),
{
    let mut rows: Vec<(String, String)> = Vec::new();
    rows.push((String::from_str("Distro"), string_or_dash(&details.distro)));
    rows.push((String::from_str("Kernel"), details.kernel.clone()));
    rows.push((String::from_str("Arch"), details.arch.clone()));
    rows.push((String::from_str(cpu_label), string_or_dash(&details.cpu_model)));
    rows.push((String::from_str(ram_label), String::from_str(ram_text)));
    let ghost first = pair_views(rows@);
    let mut i: usize = 0;
    while i < details.windows.len()
        invariant
            0 <= i <= details.windows@.len(),
            pair_views(rows@) == first + pair_views(details.windows@.take(i as int)),
        decreases details.windows@.len() - i,
    {
        let (k, v) = &details.windows[i];
        let ghost before = rows@;
        rows.push((k.clone(), v.clone()));
        proof {
            assert(rows@ == before.push(details.windows@[i as int]));
            assert(pair_views(rows@) =~= pair_views(before).push((k@, v@)));
            assert(details.windows@.take(i + 1) =~= details.windows@.take(i as int).push(
                details.windows@[i as int],
            ));
            assert(pair_views(rows@) =~= first + pair_views(details.windows@.take(i + 1)));
        }
        i = i + 1;
    }
    proof {
        assert(details.windows@.take(details.windows@.len() as int) =~= details.windows@);
        assert(pair_views(rows@) =~= host_rows_of(*details, cpu_label@, ram_label@, ram_text@));
    }
    rows
}

/// The system details page for `user` on `hostname`; `ram_text` is the
/// size of the VM's RAM as the page shows it.
pub fn details_page(user: &str, hostname: &str, details: &SystemDetails, ram_text: &str) -> (out: String)
    ensures
        out@ == details_page_text(user@, hostname@, *details, ram_text@),
{
    let rows = host_rows(details, "CPU as seen", "WSL VM RAM", ram_text);
    let mut out = header(user, hostname, "System details", 2);
    let host = section("Host", kv(rows.as_slice()).as_str());
    out.append(host.as_str());
    let wifi = section("Wi-Fi", kv_or_empty(details.wifi.as_slice(), "no Wi-Fi interface").as_str());
    out.append(wifi.as_str());
    out.append("[1] Status  [2] Details  [3] Sensors  [tab] next  [q] quit\n");
    proof {
        assert(out@ =~= details_page_text(user@, hostname@, *details, ram_text@));
    }
    out
}

/// `true` or `false`, as JSON writes a boolean.
pub open spec fn bool_text(b: bool) -> Seq<char> {
    if b {
        "true"@
    } else {
        "false"@
    }
}

/// The view of an optional string.
pub open spec fn opt_view(v: Option<String>) -> Option<Seq<char>> {
    match v {
        Some(s) => Some(s@),
        None => None,
    }
}

/// The `system_details` member of the JSON report: the details as an
/// object, the optional ones `null` when missing, the Windows and Wi-Fi
/// facts as objects of strings.
pub open spec fn details_json_text(d: SystemDetails) -> Seq<char> {
    "\"system_details\":{\"wsl\":"@ + bool_text(d.wsl) + ",\"kernel\":\""@ + json_escaped(d.kernel@)
        + "\",\"distro\":"@ + json_opt_text(opt_view(d.distro)) + ",\"arch\":\""@ + json_escaped(
        d.arch@,
    ) + "\",\"cpu_model\":"@ + json_opt_text(opt_view(d.cpu_model)) + ",\"vm_ram_total\":"@ + dec(
        d.vm_ram_total as nat,
    ) + ",\"windows\":"@ + json_pairs_text(pair_views(d.windows@)) + ",\"wifi\":"@ + json_pairs_text(
        pair_views(d.wifi@),
    ) + "}"@
}

/// An optional string as a JSON value.
fn json_opt_of(v: &Option<String>) -> (out: String)
    ensures
        out@ == json_opt_text(opt_view(*v)),
{
    match v {
        Some(s) => json_opt(Some(s.as_str())),
        None => json_opt(None),
    }
}

/// The system details as the `system_details` member of the JSON report.
pub fn details_json(details: &SystemDetails) -> (out: String)
    ensures
        out@ == details_json_text(*details),
{
    let mut out = String::from_str("\"system_details\":{\"wsl\":");
    if details.wsl {
        out.append("true");
    } else {
        out.append("false");
    }
    out.append(",\"kernel\":\"");
    out.append(json_escape(details.kernel.as_str()).as_str());
    out.append("\",\"distro\":");
    out.append(json_opt_of(&details.distro).as_str());
    out.append(",\"arch\":\"");
    out.append(json_escape(details.arch.as_str()).as_str());
    out.append("\",\"cpu_model\":");
    out.append(json_opt_of(&details.cpu_model).as_str());
    out.append(",\"vm_ram_total\":");
    push_dec(&mut out, details.vm_ram_total);
    out.append(",\"windows\":");
    out.append(json_pairs(details.windows.as_slice()).as_str());
    out.append(",\"wifi\":");
    out.append(json_pairs(details.wifi.as_slice()).as_str());
    out.append("}");
    proof {
        assert(out@ =~= details_json_text(*details));
    }
    out
}

/// The character views of a list of strings.
pub open spec fn str_views(items: Seq<String>) -> Seq<Seq<char>> {
    items.map_values(|s: String| s@)
}

/// The first `n` of `items` (all of them when there are fewer) joined
/// with `sep` between neighbours.
pub fn join_first(items: &[String], n: usize, sep: &str) -> (out: String)
    ensures
        out@ == join(
            str_views(items@).take(
                if n < items@.len() {
                    n as int
                } else {
                    items@.len() as int
                },
            ),
            sep@,
        ),
{
    let m = if n < items.len() {
        n
    } else {
        items.len()
    };
    let mut out = String::new();
    let mut i: usize = 0;
    while i < m
        invariant
            0 <= i <= m <= items@.len(),
            out@ == join(str_views(items@).take(i as int), sep@),
        decreases m - i,
    {
        let ghost before = out@;
        if i > 0 {
            out.append(sep);
        }
        out.append(items[i].as_str());
        proof {
            let x = items@[i as int]@;
            assert(str_views(items@).take(i + 1) =~= str_views(items@).take(i as int).push(x));
            lemma_join_push(str_views(items@).take(i as int), sep@, x);
            if i > 0 {
                assert(out@ =~= before + sep@ + x);
            } else {
                assert(out@ =~= x);
            }
        }
        i = i + 1;
    }
    out
}

/// The warnings line of the status page: `WARN ` and the warnings joined
/// by ` | `, or nothing at all when there is none.
pub open spec fn warnings_text(w: Seq<Seq<char>>) -> Seq<char> {
    if w.len() == 0 {
        seq![]
    } else {
        "WARN "@ + join(w, " | "@) + seq!['\n']
    }
}

/// The warnings line of the status page.
pub fn warnings_line(warnings: &[String]) -> (out: String)
    ensures
        out@ == warnings_text(str_views(warnings@)),
{
    if warnings.len() == 0 {
        return String::new();
    }
    let mut out = String::from_str("WARN ");
    let joined = join_first(warnings, warnings.len(), " | ");
    out.append(joined.as_str());
    push_char(&mut out, '\n');
    proof {
        assert(str_views(warnings@).take(warnings@.len() as int) =~= str_views(warnings@));
        assert(out@ =~= warnings_text(str_views(warnings@)));
    }
    out
}

/// The footer of the status page: a rule of 78 dashes, the uptime, the
/// distro (or else the OS name), the architecture, up to three
/// temperatures after ` | Temps: ` when there are any, then the key line.
pub open spec fn footer_text(
    uptime_s: nat,
    distro: Option<Seq<char>>,
    os: Seq<char>,
    arch: Seq<char>,
    temps: Seq<Seq<char>>,
) -> Seq<char> {
    let shown = match distro {
        Some(d) => d,
        None => os,
    };
    let temp_part = if temps.len() == 0 {
        seq![]
    } else {
        " | Temps: "@ + join(temps.take(if temps.len() < 3 { temps.len() as int } else { 3 }), ", "@)
    };
    Seq::new(78, |_i: int| '-') + " | Uptime: "@ + duration_text(uptime_s) + " | OS: "@ + shown
        + " | Arch: "@ + arch + temp_part + seq!['\n'] + nav_line()
}

/// The footer of the status page; `temps` are the temperature readings
/// as the page shows them, first to last.
pub fn footer(uptime_s: u64, distro: Option<&str>, os: &str, arch: &str, temps: &[String]) -> (out: String)
    ensures
        out@ == footer_text(
            uptime_s as nat,
            match distro {
                Some(d) => Some(d@),
                None => None,
            },
            os@,
            arch@,
            str_views(temps@),
        ),
{
    let mut out = String::new();
    push_repeat(&mut out, '-', 78);
    out.append(" | Uptime: ");
    out.append(fmt_duration(uptime_s).as_str());
    out.append(" | OS: ");
    match distro {
        Some(d) => out.append(d),
        None => out.append(os),
    }
    out.append(" | Arch: ");
    out.append(arch);
    if temps.len() > 0 {
        out.append(" | Temps: ");
        let n = if temps.len() < 3 {
            temps.len()
        } else {
            3
        };
        out.append(join_first(temps, n, ", ").as_str());
    }
    push_char(&mut out, '\n');
    out.append("[1] Status  [2] Details  [3] Sensors  [tab] next  [q] quit\n");
    proof {
        assert(out@ =~= footer_text(
            uptime_s as nat,
            match distro {
                Some(d) => Some(d@),
                None => None,
            },
            os@,
            arch@,
            str_views(temps@),
        ));
    }
    out
}

/// One GPU on the sensors page: its name and its readings as rows.
pub struct GpuSection {
    pub name: String,
    pub rows: Vec<(String, String)>,
}

/// The view of a `GpuSection`.
pub open spec fn gpu_section_view(g: GpuSection) -> (Seq<char>, Seq<(Seq<char>, Seq<char>)>) {
    (g.name@, pair_views(g.rows@))
}

/// The section of GPU number `k` (from 1) with name and rows `g`.
pub open spec fn gpu_section_text(k: nat, g: (Seq<char>, Seq<(Seq<char>, Seq<char>)>)) -> Seq<char> {
    section_text("GPU "@ + dec(k) + ": "@ + g.0, kv_text(g.1))
}

/// The GPU sections, numbered from 1 in order.
pub open spec fn gpu_sections_text(gpus: Seq<(Seq<char>, Seq<(Seq<char>, Seq<char>)>)>) -> Seq<char> {
    Seq::new(gpus.len(), |i: int| gpu_section_text((i + 1) as nat, gpus[i])).flatten()
}

/// The section that says GPU telemetry is unavailable, and why when the
/// reason is known.
pub open spec fn gpu_unavailable_text(error: Option<Seq<char>>) -> Seq<char> {
    section_text(
        "GPU"@,
        "GPU telemetry unavailable"@ + match error {
            Some(e) => ": "@ + e,
            None => seq![],
        } + seq!['\n'],
    )
}

/// The sensors page: header; one section per GPU when telemetry is
/// available, else the section saying it is not; the board sensors; the
/// GPU processes; the key line.
pub open spec fn sensors_page_text(
    user: Seq<char>,
    host: Seq<char>,
    available: bool,
    error: Option<Seq<char>>,
    gpus: Seq<(Seq<char>, Seq<(Seq<char>, Seq<char>)>)>,
    temps: Seq<(Seq<char>, Seq<char>)>,
    procs: Seq<(Seq<char>, Seq<char>)>,
) -> Seq<char> {
    header_text(user, host, "Sensors"@, 3) + (if available {
        gpu_sections_text(gpus)
    } else {
        gpu_unavailable_text(error)
    }) + section_text("CPU / board sensors"@, kv_or_empty_text(temps, "no sensors available"@))
        + section_text("GPU processes"@, kv_or_empty_text(procs, "no compute processes visible"@))
        + nav_line()
}

/// The GPU sections of the sensors page.
fn gpu_sections(gpus: &[GpuSection]) -> (out: String)
    ensures
        out@ == gpu_sections_text(gpus@.map_values(|g: GpuSection| gpu_section_view(g))),
{
    let ghost views = gpus@.map_values(|g: GpuSection| gpu_section_view(g));
    let ghost f = |i: int| gpu_section_text((i + 1) as nat, views[i]);
    let mut out = String::new();
    let mut i: usize = 0;
    while i < gpus.len()
        invariant
            0 <= i <= gpus@.len(),
            views == gpus@.map_values(|g: GpuSection| gpu_section_view(g)),
            f == (|i: int| gpu_section_text((i + 1) as nat, views[i])),
            out@ == Seq::new(i as nat, f).flatten(),
        decreases gpus@.len() - i,
    {
        let g = &gpus[i];
        let mut title = String::from_str("GPU ");
        push_dec(&mut title, i as u64 + 1);
        title.append(": ");
        title.append(g.name.as_str());
        let sec = section(title.as_str(), kv(g.rows.as_slice()).as_str());
        out.append(sec.as_str());
        proof {
            assert(views[i as int] == gpu_section_view(*g));
            assert(sec@ == f(i as int));
            assert(Seq::new((i + 1) as nat, f) =~= Seq::new(i as nat, f).push(f(i as int)));
            Seq::new(i as nat, f).lemma_flatten_push(f(i as int));
        }
        i = i + 1;
    }
    proof {
        assert(Seq::new(gpus@.len(), f) =~= Seq::new(views.len(), |i: int| gpu_section_text((i + 1) as nat, views[i])));
    }
    out
}

/// The sensors page for `user` on `hostname`, from the GPU and sensor
/// readings already written as rows.
pub fn sensors_page(
    user: &str,
    hostname: &str,
    available: bool,
    error: Option<&str>,
    gpus: &[GpuSection],
    temp_rows: &[(String, String)],
    proc_rows: &[(String, String)],
) -> (out: String)
    ensures
        out@ == sensors_page_text(
            user@,
            hostname@,
            available,
            match error {
                Some(e) => Some(e@),
                None => None,
            },
            gpus@.map_values(|g: GpuSection| gpu_section_view(g)),
            pair_views(temp_rows@),
            pair_views(proc_rows@),
        ),
{
    let mut out = header(user, hostname, "Sensors", 3);
    if available {
        out.append(gpu_sections(gpus).as_str());
    } else {
        let mut body = String::from_str("GPU telemetry unavailable");
        match error {
            Some(e) => {
                body.append(": ");
                body.append(e);
            },
            None => {},
        }
        push_char(&mut body, '\n');
        out.append(section("GPU", body.as_str()).as_str());
    }
    out.append(section("CPU / board sensors", kv_or_empty(temp_rows, "no sensors available").as_str()).as_str());
    out.append(
        section("GPU processes", kv_or_empty(proc_rows, "no compute processes visible").as_str()).as_str(),
    );
    out.append("[1] Status  [2] Details  [3] Sensors  [tab] next  [q] quit\n");
    proof {
        assert(out@ =~= sensors_page_text(
            user@,
            hostname@,
            available,
            match error {
                Some(e) => Some(e@),
                None => None,
            },
            gpus@.map_values(|g: GpuSection| gpu_section_view(g)),
            pair_views(temp_rows@),
            pair_views(proc_rows@),
        ));
    }
    out
}

/// A JSON object made of members already written as `"key":value`.
pub open spec fn json_object_text(members: Seq<Seq<char>>) -> Seq<char> {
    seq!['{'] + join(members, seq![',']) + seq!['}']
}

/// The members, in order, as one JSON object.
pub fn json_object(members: &[String]) -> (out: String)
    ensures
        out@ == json_object_text(str_views(members@)),
{
    let mut out = String::new();
    push_char(&mut out, '{');
    out.append(join_first(members, members.len(), ",").as_str());
    push_char(&mut out, '}');
    proof {
        reveal_strlit(",");
        assert(","@ =~= seq![',']);
        assert(str_views(members@).take(members@.len() as int) =~= str_views(members@));
        assert(out@ =~= json_object_text(str_views(members@)));
    }
    out
}

/// The GPU telemetry as JSON: whether it is available, the error or
/// `null`, then the GPUs and the processes, each already written as a
/// JSON value, in arrays.
pub open spec fn gpu_json_text(
    available: bool,
    error: Option<Seq<char>>,
    gpus: Seq<Seq<char>>,
    procs: Seq<Seq<char>>,
) -> Seq<char> {
    "{\"available\":"@ + bool_text(available) + ",\"error\":"@ + json_opt_text(error) + ",\"gpus\":["@
        + join(gpus, seq![',']) + "],\"processes\":["@ + join(procs, seq![',']) + "]}"@
}

/// The GPU telemetry as a JSON object, from its GPUs and processes
/// already written as JSON values.
pub fn gpu_json(available: bool, error: Option<&str>, gpus: &[String], procs: &[String]) -> (out: String)
    ensures
        out@ == gpu_json_text(
            available,
            match error {
                Some(e) => Some(e@),
                None => None,
            },
            str_views(gpus@),
            str_views(procs@),
        ),
{
    let mut out = String::from_str("{\"available\":");
    if available {
        out.append("true");
    } else {
        out.append("false");
    }
    out.append(",\"error\":");
    out.append(json_opt(error).as_str());
    out.append(",\"gpus\":[");
    out.append(join_first(gpus, gpus.len(), ",").as_str());
    out.append("],\"processes\":[");
    out.append(join_first(procs, procs.len(), ",").as_str());
    out.append("]}");
    proof {
        reveal_strlit(",");
        assert(","@ =~= seq![',']);
        assert(str_views(gpus@).take(gpus@.len() as int) =~= str_views(gpus@));
        assert(str_views(procs@).take(procs@.len() as int) =~= str_views(procs@));
        assert(out@ =~= gpu_json_text(
            available,
            match error {
                Some(e) => Some(e@),
                None => None,
            },
            str_views(gpus@),
            str_views(procs@),
        ));
    }
    out
}

/// A GPU process as JSON; `mem_mib` is its memory already written as a
/// JSON number or `null`.
pub open spec fn gpu_process_json_text(pid: Seq<char>, name: Seq<char>, mem_mib: Seq<char>) -> Seq<char> {
    "{\"pid\":\""@ + json_escaped(pid) + "\",\"name\":\""@ + json_escaped(name) + "\",\"mem_mib\":"@
        + mem_mib + "}"@
}

/// A GPU process as a JSON object.
pub fn gpu_process_json(pid: &str, name: &str, mem_mib: &str) -> (out: String)
    ensures
        out@ == gpu_process_json_text(pid@, name@, mem_mib@),
{
    let mut out = String::from_str("{\"pid\":\"");
    out.append(json_escape(pid).as_str());
    out.append("\",\"name\":\"");
    out.append(json_escape(name).as_str());
    out.append("\",\"mem_mib\":");
    out.append(mem_mib);
    out.append("}");
    proof {
        assert(out@ =~= gpu_process_json_text(pid@, name@, mem_mib@));
    }
    out
}

/// Every one-shot page ends with the key line: the details page, the
/// sensors page, and the footer that closes the status page.
pub proof fn lemma_pages_end_with_keys(
    user: Seq<char>,
    host: Seq<char>,
    d: SystemDetails,
    ram: Seq<char>,
    available: bool,
    error: Option<Seq<char>>,
    gpus: Seq<(Seq<char>, Seq<(Seq<char>, Seq<char>)>)>,
    temp_rows: Seq<(Seq<char>, Seq<char>)>,
    procs: Seq<(Seq<char>, Seq<char>)>,
    uptime_s: nat,
    distro: Option<Seq<char>>,
    os: Seq<char>,
    arch: Seq<char>,
    temps: Seq<Seq<char>>,
)
    ensures
        nav_line().is_suffix_of(details_page_text(user, host, d, ram)),
        nav_line().is_suffix_of(sensors_page_text(user, host, available, error, gpus, temp_rows, procs)),
        nav_line().is_suffix_of(footer_text(uptime_s, distro, os, arch, temps)),
{
    let a = details_page_text(user, host, d, ram);
    let b = sensors_page_text(user, host, available, error, gpus, temp_rows, procs);
    let c = footer_text(uptime_s, distro, os, arch, temps);
    let n = nav_line();
    assert(a.subrange(a.len() - n.len(), a.len() as int) =~= n);
    assert(b.subrange(b.len() - n.len(), b.len() as int) =~= n);
    assert(c.subrange(c.len() - n.len(), c.len() as int) =~= n);
}

/// All of `items` joined with `sep` between neighbours.
pub fn join_all(items: &[String], sep: &str) -> (out: String)
    ensures
        out@ == join(str_views(items@), sep@),
{
    let out = join_first(items, items.len(), sep);
    proof {
        assert(str_views(items@).take(items@.len() as int) =~= str_views(items@));
    }
    out
}

/// The view of an optional string slice.
pub open spec fn opt_str_view(o: Option<&str>) -> Option<Seq<char>> {
    match o {
        Some(e) => Some(e@),
        None => None,
    }
}

/// A value already written as JSON, or `null` when there is none.
pub open spec fn value_or_null(o: Option<Seq<char>>) -> Seq<char> {
    match o {
        Some(t) => t,
        None => "null"@,
    }
}

/// The `host` member of the JSON report; `uptime` is the uptime in
/// seconds already written as a JSON number.
pub open spec fn host_json_text(
    user: Seq<char>,
    hostname: Seq<char>,
    os: Seq<char>,
    distro: Option<Seq<char>>,
    arch: Seq<char>,
    uptime: Seq<char>,
    is_wsl: bool,
) -> Seq<char> {
    "\"host\":{\"user\":\""@ + json_escaped(user) + "\",\"hostname\":\""@ + json_escaped(hostname)
        + "\",\"os\":\""@ + json_escaped(os) + "\",\"distro\":"@ + json_opt_text(distro)
        + ",\"arch\":\""@ + json_escaped(arch) + "\",\"uptime_s\":"@ + uptime + ",\"is_wsl\":"@
        + bool_text(is_wsl) + "}"@
}

/// The `host` member of the JSON report.
pub fn host_json(
    user: &str,
    hostname: &str,
    os: &str,
    distro: Option<&str>,
    arch: &str,
    uptime_text: &str,
    is_wsl: bool,
) -> (out: String)
    ensures
        out@ == host_json_text(user@, hostname@, os@, opt_str_view(distro), arch@, uptime_text@, is_wsl),
{
    let mut out = String::from_str("\"host\":{\"user\":\"");
    out.append(json_escape(user).as_str());
    out.append("\",\"hostname\":\"");
    out.append(json_escape(hostname).as_str());
    out.append("\",\"os\":\"");
    out.append(json_escape(os).as_str());
    out.append("\",\"distro\":");
    out.append(json_opt(distro).as_str());
    out.append(",\"arch\":\"");
    out.append(json_escape(arch).as_str());
    out.append("\",\"uptime_s\":");
    out.append(uptime_text);
    out.append(",\"is_wsl\":");
    if is_wsl {
        out.append("true");
    } else {
        out.append("false");
    }
    out.append("}");
    proof {
        assert(out@ =~= host_json_text(
            user@,
            hostname@,
            os@,
            opt_str_view(distro),
            arch@,
            uptime_text@,
            is_wsl,
        ));
    }
    out
}

/// The `cpu` member of the JSON report; the percentages, the frequency and
/// the load averages are already written as JSON numbers.
pub open spec fn cpu_json_text(
    total: Seq<char>,
    per_core: Seq<Seq<char>>,
    logical: nat,
    physical: Option<nat>,
    freq: Option<Seq<char>>,
    load: Seq<Seq<char>>,
) -> Seq<char> {
    "\"cpu\":{\"percent_total\":"@ + total + ",\"percent_per_core\":["@ + join(per_core, seq![','])
        + "],\"logical_cores\":"@ + dec(logical) + ",\"physical_cores\":"@ + match physical {
        Some(p) => dec(p),
        None => "null"@,
    } + ",\"freq_mhz\":"@ + value_or_null(freq) + ",\"load_avg\":["@ + join(load, seq![',']) + "]}"@
}

/// The `cpu` member of the JSON report.
pub fn cpu_json(
    total_text: &str,
    per_core: &[String],
    logical: usize,
    physical: Option<usize>,
    freq_text: Option<&str>,
    load: &[String],
) -> (out: String)
    ensures
        out@ == cpu_json_text(
            total_text@,
            str_views(per_core@),
            logical as nat,
            match physical {
                Some(p) => Some(p as nat),
                None => None,
            },
            opt_str_view(freq_text),
            str_views(load@),
        ),
{
    let mut out = String::from_str("\"cpu\":{\"percent_total\":");
    out.append(total_text);
    out.append(",\"percent_per_core\":[");
    out.append(join_all(per_core, ",").as_str());
    out.append("],\"logical_cores\":");
    push_dec(&mut out, logical as u64);
    out.append(",\"physical_cores\":");
    match physical {
        Some(p) => push_dec(&mut out, p as u64),
        None => out.append("null"),
    }
    out.append(",\"freq_mhz\":");
    match freq_text {
        Some(f) => out.append(f),
        None => out.append("null"),
    }
    out.append(",\"load_avg\":[");
    out.append(join_all(load, ",").as_str());
    out.append("]}");
    proof {
        reveal_strlit(",");
        assert(","@ =~= seq![',']);
        assert(out@ =~= cpu_json_text(
            total_text@,
            str_views(per_core@),
            logical as nat,
            match physical {
                Some(p) => Some(p as nat),
                None => None,
            },
            opt_str_view(freq_text),
            str_views(load@),
        ));
    }
    out
}

/// The `memory` member of the JSON report; the two percentages are
/// already written as JSON numbers.
pub open spec fn memory_json_text(
    ram_total: nat,
    ram_used: nat,
    ram_available: nat,
    ram_pct: Seq<char>,
    swap_total: nat,
    swap_used: nat,
    swap_pct: Seq<char>,
) -> Seq<char> {
    "\"memory\":{\"ram_total\":"@ + dec(ram_total) + ",\"ram_used\":"@ + dec(ram_used)
        + ",\"ram_available\":"@ + dec(ram_available) + ",\"ram_percent\":"@ + ram_pct
        + ",\"swap_total\":"@ + dec(swap_total) + ",\"swap_used\":"@ + dec(swap_used)
        + ",\"swap_percent\":"@ + swap_pct + "}"@
}

/// The `memory` member of the JSON report.
pub fn memory_json(
    ram_total: u64,
    ram_used: u64,
    ram_available: u64,
    ram_pct_text: &str,
    swap_total: u64,
    swap_used: u64,
    swap_pct_text: &str,
) -> (out: String)
    ensures
        out@ == memory_json_text(
            ram_total as nat,
            ram_used as nat,
            ram_available as nat,
            ram_pct_text@,
            swap_total as nat,
            swap_used as nat,
            swap_pct_text@,
        ),
{
    let mut out = String::from_str("\"memory\":{\"ram_total\":");
    push_dec(&mut out, ram_total);
    out.append(",\"ram_used\":");
    push_dec(&mut out, ram_used);
    out.append(",\"ram_available\":");
    push_dec(&mut out, ram_available);
    out.append(",\"ram_percent\":");
    out.append(ram_pct_text);
    out.append(",\"swap_total\":");
    push_dec(&mut out, swap_total);
    out.append(",\"swap_used\":");
    push_dec(&mut out, swap_used);
    out.append(",\"swap_percent\":");
    out.append(swap_pct_text);
    out.append("}");
    proof {
        assert(out@ =~= memory_json_text(
            ram_total as nat,
            ram_used as nat,
            ram_available as nat,
            ram_pct_text@,
            swap_total as nat,
            swap_used as nat,
            swap_pct_text@,
        ));
    }
    out
}

/// One disk of the JSON report; the percentage is already written as a
/// JSON number.
pub open spec fn disk_json_text(
    mount: Seq<char>,
    device: Seq<char>,
    fstype: Seq<char>,
    total: nat,
    used: nat,
    free: nat,
    pct: Seq<char>,
) -> Seq<char> {
    "{\"mount\":\""@ + json_escaped(mount) + "\",\"device\":\""@ + json_escaped(device)
        + "\",\"fstype\":\""@ + json_escaped(fstype) + "\",\"total\":"@ + dec(total) + ",\"used\":"@
        + dec(used) + ",\"free\":"@ + dec(free) + ",\"percent\":"@ + pct + "}"@
}

/// One disk of the JSON report.
pub fn disk_json(
    mount: &str,
    device: &str,
    fstype: &str,
    total: u64,
    used: u64,
    free: u64,
    pct_text: &str,
) -> (out: String)
    ensures
        out@ == disk_json_text(
            mount@,
            device@,
            fstype@,
            total as nat,
            used as nat,
            free as nat,
            pct_text@,
        ),
{
    let mut out = String::from_str("{\"mount\":\"");
    out.append(json_escape(mount).as_str());
    out.append("\",\"device\":\"");
    out.append(json_escape(device).as_str());
    out.append("\",\"fstype\":\"");
    out.append(json_escape(fstype).as_str());
    out.append("\",\"total\":");
    push_dec(&mut out, total);
    out.append(",\"used\":");
    push_dec(&mut out, used);
    out.append(",\"free\":");
    push_dec(&mut out, free);
    out.append(",\"percent\":");
    out.append(pct_text);
    out.append("}");
    proof {
        assert(out@ =~= disk_json_text(
            mount@,
            device@,
            fstype@,
            total as nat,
            used as nat,
            free as nat,
            pct_text@,
        ));
    }
    out
}

/// The `disks` member of the JSON report, from the disks already written
/// as JSON objects.
pub open spec fn disks_json_text(disks: Seq<Seq<char>>) -> Seq<char> {
    "\"disks\":["@ + join(disks, seq![',']) + "]"@
}

/// The `disks` member of the JSON report.
pub fn disks_json(disks: &[String]) -> (out: String)
    ensures
        out@ == disks_json_text(str_views(disks@)),
{
    let mut out = String::from_str("\"disks\":[");
    out.append(join_all(disks, ",").as_str());
    out.append("]");
    proof {
        reveal_strlit(",");
        assert(","@ =~= seq![',']);
        assert(out@ =~= disks_json_text(str_views(disks@)));
    }
    out
}

/// One network interface of the JSON report; the two rates are already
/// written as JSON numbers.
pub open spec fn interface_json_text(name: Seq<char>, up: Seq<char>, down: Seq<char>, sent: nat, recv: nat) -> Seq<char> {
    "{\"name\":\""@ + json_escaped(name) + "\",\"up_bps\":"@ + up + ",\"down_bps\":"@ + down
        + ",\"total_sent\":"@ + dec(sent) + ",\"total_recv\":"@ + dec(recv) + "}"@
}

/// One network interface of the JSON report.
pub fn interface_json(name: &str, up_text: &str, down_text: &str, sent: u64, recv: u64) -> (out: String)
    ensures
        out@ == interface_json_text(name@, up_text@, down_text@, sent as nat, recv as nat),
{
    let mut out = String::from_str("{\"name\":\"");
    out.append(json_escape(name).as_str());
    out.append("\",\"up_bps\":");
    out.append(up_text);
    out.append(",\"down_bps\":");
    out.append(down_text);
    out.append(",\"total_sent\":");
    push_dec(&mut out, sent);
    out.append(",\"total_recv\":");
    push_dec(&mut out, recv);
    out.append("}");
    proof {
        assert(out@ =~= interface_json_text(name@, up_text@, down_text@, sent as nat, recv as nat));
    }
    out
}

/// The `network` member of the JSON report, from the interfaces already
/// written as JSON objects.
pub open spec fn network_json_text(interfaces: Seq<Seq<char>>) -> Seq<char> {
    "\"network\":{\"interfaces\":["@ + join(interfaces, seq![',']) + "]}"@
}

/// The `network` member of the JSON report.
pub fn network_json(interfaces: &[String]) -> (out: String)
    ensures
        out@ == network_json_text(str_views(interfaces@)),
{
    let mut out = String::from_str("\"network\":{\"interfaces\":[");
    out.append(join_all(interfaces, ",").as_str());
    out.append("]}");
    proof {
        reveal_strlit(",");
        assert(","@ =~= seq![',']);
        assert(out@ =~= network_json_text(str_views(interfaces@)));
    }
    out
}

/// The readings of one GPU, each already written as a JSON number or
/// `null`.
pub struct GpuReadings {
    pub temp_c: String,
    pub gpu_util_pct: String,
    pub mem_util_pct: String,
    pub vram_used_mib: String,
    pub vram_total_mib: String,
    pub fan_pct: String,
    pub power_w: String,
    pub power_limit_w: String,
    pub clock_core_mhz: String,
    pub clock_mem_mhz: String,
}

/// One GPU of the JSON report: its escaped name, then its readings.
pub open spec fn gpu_object_json_text(name: Seq<char>, r: GpuReadings) -> Seq<char> {
    "{\"name\":\""@ + json_escaped(name) + "\",\"temp_c\":"@ + r.temp_c@ + ",\"gpu_util_pct\":"@
        + r.gpu_util_pct@ + ",\"mem_util_pct\":"@ + r.mem_util_pct@ + ",\"vram_used_mib\":"@
        + r.vram_used_mib@ + ",\"vram_total_mib\":"@ + r.vram_total_mib@ + ",\"fan_pct\":"@ + r.fan_pct@
        + ",\"power_w\":"@ + r.power_w@ + ",\"power_limit_w\":"@ + r.power_limit_w@
        + ",\"clock_core_mhz\":"@ + r.clock_core_mhz@ + ",\"clock_mem_mhz\":"@ + r.clock_mem_mhz@
        + "}"@
}

/// One GPU of the JSON report.
pub fn gpu_object_json(name: &str, r: &GpuReadings) -> (out: String)
    ensures
        out@ == gpu_object_json_text(name@, *r),
{
    let mut out = String::from_str("{\"name\":\"");
    out.append(json_escape(name).as_str());
    out.append("\",\"temp_c\":");
    out.append(r.temp_c.as_str());
    out.append(",\"gpu_util_pct\":");
    out.append(r.gpu_util_pct.as_str());
    out.append(",\"mem_util_pct\":");
    out.append(r.mem_util_pct.as_str());
    out.append(",\"vram_used_mib\":");
    out.append(r.vram_used_mib.as_str());
    out.append(",\"vram_total_mib\":");
    out.append(r.vram_total_mib.as_str());
    out.append(",\"fan_pct\":");
    out.append(r.fan_pct.as_str());
    out.append(",\"power_w\":");
    out.append(r.power_w.as_str());
    out.append(",\"power_limit_w\":");
    out.append(r.power_limit_w.as_str());
    out.append(",\"clock_core_mhz\":");
    out.append(r.clock_core_mhz.as_str());
    out.append(",\"clock_mem_mhz\":");
    out.append(r.clock_mem_mhz.as_str());
    out.append("}");
    proof {
        assert(out@ =~= gpu_object_json_text(name@, *r));
    }
    out
}

/// The `gpu_telemetry` member of the JSON report, around the telemetry
/// object.
pub open spec fn gpu_telemetry_json_text(telemetry: Seq<char>) -> Seq<char> {
    "\"gpu_telemetry\":"@ + telemetry
}

/// The `gpu_telemetry` member of the JSON report.
pub fn gpu_telemetry_json(telemetry: &str) -> (out: String)
    ensures
        out@ == gpu_telemetry_json_text(telemetry@),
{
    let mut out = String::from_str("\"gpu_telemetry\":");
    out.append(telemetry);
    out
}

/// The status page: header; the warnings section, only when there are
/// warnings; the CPU, Memory, Disks, Network, Top processes and Battery
/// sections with the given bodies; the footer.
pub open spec fn status_page_text(
    user: Seq<char>,
    host: Seq<char>,
    warnings: Seq<Seq<char>>,
    cpu: Seq<char>,
    memory: Seq<char>,
    disks: Seq<char>,
    network: Seq<char>,
    processes: Seq<char>,
    battery: Seq<char>,
    footer: Seq<char>,
) -> Seq<char> {
    header_text(user, host, "Status"@, 1) + (if warnings.len() == 0 {
        seq![]
    } else {
        section_text("Warnings"@, warnings_text(warnings))
    }) + section_text("CPU"@, cpu) + section_text("Memory"@, memory) + section_text("Disks"@, disks)
        + section_text("Network"@, network) + section_text("Top processes"@, processes) + section_text(
        "Battery"@,
        battery,
    ) + footer
}

/// The heading of the warnings section.
pub open spec fn warnings_heading() -> Seq<char> {
    "\n== Warnings ==\n"@
}

/// The status page opens with its header; right after it comes the
/// warnings section exactly when there are warnings, and then it holds
/// `WARN ` and the warnings joined by ` | ` on one line.
pub proof fn lemma_status_warnings(
    user: Seq<char>,
    host: Seq<char>,
    warnings: Seq<Seq<char>>,
    cpu: Seq<char>,
    memory: Seq<char>,
    disks: Seq<char>,
    network: Seq<char>,
    processes: Seq<char>,
    battery: Seq<char>,
    footer: Seq<char>,
)
    ensures
        header_text(user, host, "Status"@, 1).is_prefix_of(
            status_page_text(user, host, warnings, cpu, memory, disks, network, processes, battery, footer),
        ),
        warnings.len() > 0 <==> warnings_heading().is_prefix_of(
            status_page_text(user, host, warnings, cpu, memory, disks, network, processes, battery, footer).skip(
                header_text(user, host, "Status"@, 1).len() as int,
            ),
        ),
        warnings.len() > 0 ==> (warnings_heading() + "WARN "@ + join(warnings, " | "@) + seq!['\n']).is_prefix_of(
            status_page_text(user, host, warnings, cpu, memory, disks, network, processes, battery, footer).skip(
                header_text(user, host, "Status"@, 1).len() as int,
            ),
        ),
{
    let page = status_page_text(user, host, warnings, cpu, memory, disks, network, processes, battery, footer);
    let h = header_text(user, host, "Status"@, 1);
    let tail = section_text("CPU"@, cpu) + section_text("Memory"@, memory) + section_text("Disks"@, disks)
        + section_text("Network"@, network) + section_text("Top processes"@, processes) + section_text(
        "Battery"@,
        battery,
    ) + footer;
    reveal_strlit("\n== Warnings ==\n");
    reveal_strlit("Warnings");
    reveal_strlit("CPU");
    assert(warnings_heading() =~= seq!['\n', '=', '=', ' '] + "Warnings"@ + seq![' ', '=', '=', '\n']);
    if warnings.len() > 0 {
        let sec = section_text("Warnings"@, warnings_text(warnings));
        assert(page =~= h + (sec + tail));
        assert(page.skip(h.len() as int) =~= sec + tail);
        let line = warnings_heading() + "WARN "@ + join(warnings, " | "@) + seq!['\n'];
        assert(sec =~= line);
        assert((sec + tail).take(line.len() as int) =~= line);
        assert((sec + tail).take(warnings_heading().len() as int) =~= warnings_heading());
    } else {
        assert(page =~= h + tail);
        assert(page.skip(h.len() as int) =~= tail);
        assert(tail[4] == 'C');
        assert(warnings_heading()[4] == 'W');
    }
    assert(page.take(h.len() as int) =~= h);
}

/// The status page for `user` on `hostname`, from the warnings and the
/// section bodies and footer already written.
pub fn status_page(
    user: &str,
    hostname: &str,
    warnings: &[String],
    cpu: &str,
    memory: &str,
    disks: &str,
    network: &str,
    processes: &str,
    battery: &str,
    footer: &str,
) -> (out: String)
    ensures
        out@ == status_page_text(
            user@,
            hostname@,
            str_views(warnings@),
            cpu@,
            memory@,
            disks@,
            network@,
            processes@,
            battery@,
            footer@,
        ),
        warnings@.len() > 0 <==> warnings_heading().is_prefix_of(
            out@.skip(header_text(user@, hostname@, "Status"@, 1).len() as int),
        ),
{
    let mut out = header(user, hostname, "Status", 1);
    if warnings.len() > 0 {
        out.append(section("Warnings", warnings_line(warnings).as_str()).as_str());
    }
    out.append(section("CPU", cpu).as_str());
    out.append(section("Memory", memory).as_str());
    out.append(section("Disks", disks).as_str());
    out.append(section("Network", network).as_str());
    out.append(section("Top processes", processes).as_str());
    out.append(section("Battery", battery).as_str());
    out.append(footer);
    proof {
        assert(out@ =~= status_page_text(
            user@,
            hostname@,
            str_views(warnings@),
            cpu@,
            memory@,
            disks@,
            network@,
            processes@,
            battery@,
            footer@,
        ));
        lemma_status_warnings(
            user@,
            hostname@,
            str_views(warnings@),
            cpu@,
            memory@,
            disks@,
            network@,
            processes@,
            battery@,
            footer@,
        );
    }
    out
}

/// The readings of one GPU for the sensors page, each already written as
/// a rounded number, or missing: temperature, GPU and memory I/O use, VRAM
/// used and total in GiB, fan, power, core and memory clocks.
pub struct GpuFigures {
    pub temp_c: Option<String>,
    pub gpu_util_pct: Option<String>,
    pub mem_util_pct: Option<String>,
    pub vram_used_gib: Option<String>,
    pub vram_total_gib: Option<String>,
    pub fan_pct: Option<String>,
    pub power_w: Option<String>,
    pub clock_core_mhz: Option<String>,
    pub clock_mem_mhz: Option<String>,
}

/// A reading followed by its unit, or `-` when it is missing.
pub open spec fn with_unit(v: Option<Seq<char>>, unit: Seq<char>) -> Seq<char> {
    match v {
        Some(t) => t + unit,
        None => seq!['-'],
    }
}

/// `used / total GiB`, or `-` unless both are known.
pub open spec fn vram_text(used: Option<Seq<char>>, total: Option<Seq<char>>) -> Seq<char> {
    match (used, total) {
        (Some(u), Some(t)) => u + " / "@ + t + " GiB"@,
        _ => seq!['-'],
    }
}

/// The rows of a GPU section, in this order: Temp, GPU util, Mem I/O,
/// VRAM, Fan, Power, Core clock, Mem clock.
pub open spec fn gpu_rows_of(f: GpuFigures) -> Seq<(Seq<char>, Seq<char>)> {
    seq![
        ("Temp"@, with_unit(opt_view(f.temp_c), " C"@)),
        ("GPU util"@, with_unit(opt_view(f.gpu_util_pct), "%"@)),
        ("Mem I/O"@, with_unit(opt_view(f.mem_util_pct), "%"@)),
        ("VRAM"@, vram_text(opt_view(f.vram_used_gib), opt_view(f.vram_total_gib))),
        ("Fan"@, with_unit(opt_view(f.fan_pct), "%"@)),
        ("Power"@, with_unit(opt_view(f.power_w), " W"@)),
        ("Core clock"@, with_unit(opt_view(f.clock_core_mhz), " MHz"@)),
        ("Mem clock"@, with_unit(opt_view(f.clock_mem_mhz), " MHz"@)),
    ]
}

/// A reading with its unit, or `-`.
fn unit_text(v: &Option<String>, unit: &str) -> (out: String)
    ensures
        out@ == with_unit(opt_view(*v), unit@),
{
    match v {
        Some(t) => {
            let mut out = t.clone();
            out.append(unit);
            out
        },
        None => {
            let mut out = String::new();
            push_char(&mut out, '-');
            proof {
                assert(out@ =~= seq!['-']);
            }
            out
        },
    }
}

/// The VRAM row's value.
fn vram_value(used: &Option<String>, total: &Option<String>) -> (out: String)
    ensures
        out@ == vram_text(opt_view(*used), opt_view(*total)),
{
    match (used, total) {
        (Some(u), Some(t)) => {
            let mut out = u.clone();
            out.append(" / ");
            out.append(t.as_str());
            out.append(" GiB");
            out
        },
        _ => {
            let mut out = String::new();
            push_char(&mut out, '-');
            proof {
                assert(out@ =~= seq!['-']);
            }
            out
        },
    }
}

/// The section of the sensors page for the GPU `name` with readings `f`.
pub fn gpu_section(name: &str, f: &GpuFigures) -> (g: GpuSection)
    ensures
        gpu_section_view(g) == (name@, gpu_rows_of(*f)),
{
    let mut rows: Vec<(String, String)> = Vec::new();
    rows.push((String::from_str("Temp"), unit_text(&f.temp_c, " C")));
    rows.push((String::from_str("GPU util"), unit_text(&f.gpu_util_pct, "%")));
    rows.push((String::from_str("Mem I/O"), unit_text(&f.mem_util_pct, "%")));
    rows.push((String::from_str("VRAM"), vram_value(&f.vram_used_gib, &f.vram_total_gib)));
    rows.push((String::from_str("Fan"), unit_text(&f.fan_pct, "%")));
    rows.push((String::from_str("Power"), unit_text(&f.power_w, " W")));
    rows.push((String::from_str("Core clock"), unit_text(&f.clock_core_mhz, " MHz")));
    rows.push((String::from_str("Mem clock"), unit_text(&f.clock_mem_mhz, " MHz")));
    let g = GpuSection { name: String::from_str(name), rows };
    proof {
        assert(pair_views(g.rows@) =~= gpu_rows_of(*f));
    }
    g
}

/// On a sensors page with GPU telemetry, right after the header come the
/// GPU sections, one per GPU in order: the sections of the GPUs before
/// number `i + 1`, then its own, numbered `i + 1`.
pub proof fn lemma_sensors_gpu_order(
    user: Seq<char>,
    host: Seq<char>,
    error: Option<Seq<char>>,
    gpus: Seq<(Seq<char>, Seq<(Seq<char>, Seq<char>)>)>,
    temps: Seq<(Seq<char>, Seq<char>)>,
    procs: Seq<(Seq<char>, Seq<char>)>,
    i: int,
)
    requires
        0 <= i < gpus.len(),
    ensures
        (header_text(user, host, "Sensors"@, 3) + gpu_sections_text(gpus.take(i)) + gpu_section_text(
            (i + 1) as nat,
            gpus[i],
        )).is_prefix_of(sensors_page_text(user, host, true, error, gpus, temps, procs)),
{
    let f = |j: int| gpu_section_text((j + 1) as nat, gpus[j]);
    let all = Seq::new(gpus.len(), f);
    assert(gpu_sections_text(gpus) == all.flatten());
    assert(Seq::new(i as nat, |j: int| gpu_section_text((j + 1) as nat, gpus.take(i)[j])) =~= all.take(i));
    assert(all =~= all.take(i + 1) + all.skip(i + 1));
    vstd::seq_lib::lemma_flatten_concat(all.take(i + 1), all.skip(i + 1));
    assert(all.take(i + 1) =~= all.take(i).push(f(i)));
    all.take(i).lemma_flatten_push(f(i));
    let front = header_text(user, host, "Sensors"@, 3) + gpu_sections_text(gpus.take(i)) + gpu_section_text(
        (i + 1) as nat,
        gpus[i],
    );
    let page = sensors_page_text(user, host, true, error, gpus, temps, procs);
    assert(page.take(front.len() as int) =~= front);
}

/// The JSON report: the host, CPU, memory, disks and network members in
/// that order, then the system details when asked for, then the GPU
/// telemetry when asked for, as one object.
pub open spec fn json_report_text(
    host: Seq<char>,
    cpu: Seq<char>,
    memory: Seq<char>,
    disks: Seq<char>,
    network: Seq<char>,
    details: Option<SystemDetails>,
    gpu: Option<Seq<char>>,
) -> Seq<char> {
    json_object_text(
        seq![host, cpu, memory, disks, network] + match details {
            Some(d) => seq![details_json_text(d)],
            None => Seq::<Seq<char>>::empty(),
        } + match gpu {
            Some(g) => seq![gpu_telemetry_json_text(g)],
            None => Seq::<Seq<char>>::empty(),
        },
    )
}

/// The JSON report from its host, CPU, memory, disks and network members,
/// the system details when they were asked for, and the GPU telemetry
/// object when it was asked for.
pub fn json_report(
    host: &str,
    cpu: &str,
    memory: &str,
    disks: &str,
    network: &str,
    details: Option<&SystemDetails>,
    gpu: Option<&str>,
) -> (out: String)
    ensures
        out@ == json_report_text(
            host@,
            cpu@,
            memory@,
            disks@,
            network@,
            match details {
                Some(d) => Some(*d),
                None => None,
            },
            opt_str_view(gpu),
        ),
{
    let mut parts: Vec<String> = Vec::new();
    parts.push(String::from_str(host));
    parts.push(String::from_str(cpu));
    parts.push(String::from_str(memory));
    parts.push(String::from_str(disks));
    parts.push(String::from_str(network));
    let ghost base = str_views(parts@);
    proof {
        assert(base =~= seq![host@, cpu@, memory@, disks@, network@]);
    }
    match details {
        Some(d) => {
            parts.push(details_json(d));
            proof {
                assert(str_views(parts@) =~= base + seq![details_json_text(*d)]);
            }
        },
        None => {},
    }
    let ghost mid = str_views(parts@);
    match gpu {
        Some(g) => {
            parts.push(gpu_telemetry_json(g));
            proof {
                assert(str_views(parts@) =~= mid + seq![gpu_telemetry_json_text(g@)]);
            }
        },
        None => {},
    }
    let out = json_object(parts.as_slice());
    proof {
        assert(str_views(parts@) =~= seq![host@, cpu@, memory@, disks@, network@] + match details {
            Some(d) => seq![details_json_text(*d)],
            None => Seq::<Seq<char>>::empty(),
        } + match gpu {
            Some(g) => seq![gpu_telemetry_json_text(g@)],
            None => Seq::<Seq<char>>::empty(),
        });
    }
    out
}

} // verus!
