//! The CSV encoding of the metrics log: fields, and the layout of a row.
use vstd::prelude::*;

use crate::text::{chars_of, dec, push_char, push_dec};

verus! {

/// A character that forces a CSV field into quotes.
pub open spec fn csv_special(c: char) -> bool {
    c == ',' || c == '"' || c == '\n' || c == '\r'
}

/// How a quoted field writes one character: a quote doubled.
pub open spec fn csv_quote_char(c: char) -> Seq<char> {
    if c == '"' {
        seq!['"', '"']
    } else {
        seq![c]
    }
}

/// `csv_escape`: fields holding a comma, quote or line break go in quotes
/// with their quotes doubled; other fields stay as they are.
pub open spec fn csv_field(v: Seq<char>) -> Seq<char> {
    if exists|i: int| 0 <= i < v.len() && csv_special(#[trigger] v[i]) {
        seq!['"'] + v.map_values(|c: char| csv_quote_char(c)).flatten() + seq!['"']
    } else {
        v
    }
}

/// Encodes `value` as one CSV field.
pub fn csv_escape(value: &str) -> (out: String)
    ensures
        out@ == csv_field(value@),
{
    let v = chars_of(value);
    let mut special = false;
    let mut i: usize = 0;
    while i < v.len()
        invariant
            0 <= i <= v@.len(),
            v@ == value@,
            special <==> exists|j: int| 0 <= j < i && csv_special(#[trigger] v@[j]),
        decreases v@.len() - i,
    {
        let c = v[i];
        if c == ',' || c == '"' || c == '\n' || c == '\r' {
            special = true;
        }
        i = i + 1;
    }
    if !special {
        return String::from_str(value);
    }
    let ghost f = |c: char| csv_quote_char(c);
    let mut body = String::new();
    let mut k: usize = 0;
    while k < v.len()
        invariant
            0 <= k <= v@.len(),
            v@ == value@,
            f == (|c: char| csv_quote_char(c)),
            body@ == v@.take(k as int).map_values(f).flatten(),
        decreases v@.len() - k,
    {
        let c = v[k];
        let ghost before = body@;
        if c == '"' {
            push_char(&mut body, '"');
            push_char(&mut body, '"');
        } else {
            push_char(&mut body, c);
        }
        proof {
            assert(body@ =~= before + csv_quote_char(c));
            assert(v@.take(k + 1) =~= v@.take(k as int).push(c));
            assert(v@.take(k + 1).map_values(f) =~= v@.take(k as int).map_values(f).push(
                csv_quote_char(c),
            ));
            v@.take(k as int).map_values(f).lemma_flatten_push(csv_quote_char(c));
        }
        k = k + 1;
    }
    proof {
        assert(v@.take(v@.len() as int) =~= v@);
    }
    let mut out = String::new();
    push_char(&mut out, '"');
    out.append(body.as_str());
    push_char(&mut out, '"');
    proof {
        assert(out@ =~= csv_field(value@));
    }
    out
}

/// Reads the inside of a quoted CSV field: `""` stands for `"`, a lone
/// quote makes it unreadable.
pub open spec fn csv_unquote_inner(u: Seq<char>) -> Option<Seq<char>>
    decreases u.len(),
{
    if u.len() == 0 {
        Some(seq![])
    } else if u[0] == '"' {
        if u.len() >= 2 && u[1] == '"' {
            match csv_unquote_inner(u.skip(2)) {
                Some(r) => Some(seq!['"'] + r),
                None => None,
            }
        } else {
            None
        }
    } else {
        match csv_unquote_inner(u.drop_first()) {
            Some(r) => Some(seq![u[0]] + r),
            None => None,
        }
    }
}

/// Reads one CSV field as RFC 4180 has it: a quoted field, or a bare one
/// without commas, quotes or line breaks.
pub open spec fn csv_read_field(t: Seq<char>) -> Option<Seq<char>> {
    if t.len() >= 2 && t[0] == '"' && t.last() == '"' {
        csv_unquote_inner(t.subrange(1, t.len() - 1))
    } else if exists|i: int| 0 <= i < t.len() && csv_special(#[trigger] t[i]) {
        None
    } else {
        Some(t)
    }
}

proof fn lemma_csv_unquote_inner(v: Seq<char>)
    ensures
        csv_unquote_inner(v.map_values(|c: char| csv_quote_char(c)).flatten()) == Some(v),
    decreases v.len(),
{
    let f = |c: char| csv_quote_char(c);
    if v.len() > 0 {
        assert(v.map_values(f).drop_first() =~= v.drop_first().map_values(f));
        lemma_csv_unquote_inner(v.drop_first());
        let rest = v.drop_first().map_values(f).flatten();
        let t = csv_quote_char(v[0]) + rest;
        assert(v.map_values(f).flatten() == t);
        if v[0] == '"' {
            assert(t.skip(2) =~= rest);
        } else {
            assert(t.drop_first() =~= rest);
        }
        assert(seq![v[0]] + v.drop_first() =~= v);
    } else {
        assert(v.map_values(f).flatten() =~= Seq::<char>::empty());
    }
}

/// One row of the metrics log: the time, the escaped host name, the CPU
/// and RAM percentages, RAM used and total, the swap percentage, swap
/// used and total, the fullest disk's percentage, the upload and download
/// rates and the battery level, separated by commas and ended by a line
/// break. The readings given as text are already written as numbers (the
/// battery level is empty when unknown).
pub open spec fn csv_row_text(
    time: Seq<char>,
    hostname: Seq<char>,
    cpu_pct: Seq<char>,
    ram_pct: Seq<char>,
    ram_used: nat,
    ram_total: nat,
    swap_pct: Seq<char>,
    swap_used: nat,
    swap_total: nat,
    disk_max: Seq<char>,
    up: Seq<char>,
    down: Seq<char>,
    battery: Seq<char>,
) -> Seq<char> {
    time + seq![','] + csv_field(hostname) + seq![','] + cpu_pct + seq![','] + ram_pct + seq![',']
        + dec(ram_used) + seq![','] + dec(ram_total) + seq![','] + swap_pct + seq![','] + dec(swap_used)
        + seq![','] + dec(swap_total) + seq![','] + disk_max + seq![','] + up + seq![','] + down
        + seq![','] + battery + seq!['\n']
}

/// One row of the metrics log.
pub fn csv_row(
    time: &str,
    hostname: &str,
    cpu_pct: &str,
    ram_pct: &str,
    ram_used: u64,
    ram_total: u64,
    swap_pct: &str,
    swap_used: u64,
    swap_total: u64,
    disk_max: &str,
    up: &str,
    down: &str,
    battery: &str,
) -> (out: String)
    ensures
        out@ == csv_row_text(
            time@,
            hostname@,
            cpu_pct@,
            ram_pct@,
            ram_used as nat,
            ram_total as nat,
            swap_pct@,
            swap_used as nat,
            swap_total as nat,
            disk_max@,
            up@,
            down@,
            battery@,
        ),
{
    let mut out = String::from_str(time);
    push_char(&mut out, ',');
    out.append(csv_escape(hostname).as_str());
    push_char(&mut out, ',');
    out.append(cpu_pct);
    push_char(&mut out, ',');
    out.append(ram_pct);
    push_char(&mut out, ',');
    push_dec(&mut out, ram_used);
    push_char(&mut out, ',');
    push_dec(&mut out, ram_total);
    push_char(&mut out, ',');
    out.append(swap_pct);
    push_char(&mut out, ',');
    push_dec(&mut out, swap_used);
    push_char(&mut out, ',');
    push_dec(&mut out, swap_total);
    push_char(&mut out, ',');
    out.append(disk_max);
    push_char(&mut out, ',');
    out.append(up);
    push_char(&mut out, ',');
    out.append(down);
    push_char(&mut out, ',');
    out.append(battery);
    push_char(&mut out, '\n');
    proof {
        assert(out@ =~= csv_row_text(
            time@,
            hostname@,
            cpu_pct@,
            ram_pct@,
            ram_used as nat,
            ram_total as nat,
            swap_pct@,
            swap_used as nat,
            swap_total as nat,
            disk_max@,
            up@,
            down@,
            battery@,
        ));
    }
    out
}

/// A field that `csv_escape` wrote reads back as the value it was given, so
/// a log row keeps every field whole.
pub proof fn lemma_csv_field_reads_back(v: Seq<char>)
    ensures
        csv_read_field(csv_field(v)) == Some(v),
{
    let f = |c: char| csv_quote_char(c);
    if exists|i: int| 0 <= i < v.len() && csv_special(#[trigger] v[i]) {
        let inner = v.map_values(f).flatten();
        let t = seq!['"'] + inner + seq!['"'];
        assert(t.subrange(1, t.len() - 1) =~= inner);
        lemma_csv_unquote_inner(v);
    } else {
        if v.len() >= 2 && v[0] == '"' {
            assert(csv_special(v[0]));
        }
    }
}

} // verus!
