//! Character-level building blocks shared by the parsers and formatters:
//! the meaning of std's `trim`, `lines`, `split`, `split_whitespace` and
//! integer parsing stated over `Seq<char>`, with verified implementations
//! that work on index ranges into a `&[char]`.
use vstd::prelude::*;

verus! {

// ---------------------------------------------------------------------------
// Character classes
// ---------------------------------------------------------------------------

/// Unicode `White_Space`, the set that `char::is_whitespace` tests.
pub open spec fn is_ws(c: char) -> bool {
    let u = c as u32;
    ||| (0x09 <= u && u <= 0x0d)
    ||| u == 0x20
    ||| u == 0x85
    ||| u == 0xa0
    ||| u == 0x1680
    ||| (0x2000 <= u && u <= 0x200a)
    ||| u == 0x2028
    ||| u == 0x2029
    ||| u == 0x202f
    ||| u == 0x205f
    ||| u == 0x3000
}

/// General category `Cc`, the set that `char::is_control` tests.
pub open spec fn is_control(c: char) -> bool {
    let u = c as u32;
    u <= 0x1f || (0x7f <= u && u <= 0x9f)
}

/// An ASCII decimal digit.
pub open spec fn is_digit(c: char) -> bool {
    '0' <= c && c <= '9'
}

/// The value of an ASCII decimal digit.
pub open spec fn digit_value(c: char) -> int {
    (c as u32) - ('0' as u32)
}

/// The ASCII digit for `d` in `0..10`.
pub open spec fn digit_char(d: int) -> char {
    (('0' as u32) + d) as char
}

pub fn char_is_ws(c: char) -> (b: bool)
    ensures
        b == is_ws(c),
{
    let u = c as u32;
    (0x09 <= u && u <= 0x0d) || u == 0x20 || u == 0x85 || u == 0xa0 || u == 0x1680 || (0x2000
        <= u && u <= 0x200a) || u == 0x2028 || u == 0x2029 || u == 0x202f || u == 0x205f || u
        == 0x3000
}

pub fn char_is_control(c: char) -> (b: bool)
    ensures
        b == is_control(c),
{
    let u = c as u32;
    u <= 0x1f || (0x7f <= u && u <= 0x9f)
}

/// The characters of `s`, in order.
pub fn chars_of(s: &str) -> (out: Vec<char>)
    ensures
        out@ == s@,
{
    let mut out: Vec<char> = Vec::new();
    for c in it: s.chars()
        invariant
            out@ == it.seq().take(it.index() as int),
    {
        out.push(c);
    }
    out
}

// ---------------------------------------------------------------------------
// Searching
// ---------------------------------------------------------------------------

/// Index of the first `c` in `s`, or `s.len()` when there is none.
pub open spec fn find(s: Seq<char>, c: char) -> int
    decreases s.len(),
{
    if s.len() == 0 {
        0
    } else if s[0] == c {
        0
    } else {
        1 + find(s.drop_first(), c)
    }
}

/// Index of the first white-space character of `s`, or `s.len()`.
pub open spec fn find_ws(s: Seq<char>) -> int
    decreases s.len(),
{
    if s.len() == 0 {
        0
    } else if is_ws(s[0]) {
        0
    } else {
        1 + find_ws(s.drop_first())
    }
}

pub proof fn lemma_find(s: Seq<char>, c: char)
    ensures
        0 <= find(s, c) <= s.len(),
        forall|j: int| 0 <= j < find(s, c) ==> s[j] != c,
        find(s, c) < s.len() ==> s[find(s, c)] == c,
    decreases s.len(),
{
    if s.len() > 0 && s[0] != c {
        lemma_find(s.drop_first(), c);
        assert forall|j: int| 0 <= j < find(s, c) implies s[j] != c by {
            if j > 0 {
                assert(s[j] == s.drop_first()[j - 1]);
            }
        }
    }
}

/// `i` is the first `c` in `s` (or the end), so it is `find(s, c)`.
pub proof fn lemma_find_unique(s: Seq<char>, c: char, i: int)
    requires
        0 <= i <= s.len(),
        forall|j: int| 0 <= j < i ==> s[j] != c,
        i == s.len() || s[i] == c,
    ensures
        find(s, c) == i,
    decreases s.len(),
{
    if s.len() > 0 && i > 0 {
        assert forall|j: int| 0 <= j < i - 1 implies s.drop_first()[j] != c by {
            assert(s.drop_first()[j] == s[j + 1]);
        }
        lemma_find_unique(s.drop_first(), c, i - 1);
    }
}

pub proof fn lemma_find_ws(s: Seq<char>)
    ensures
        0 <= find_ws(s) <= s.len(),
        forall|j: int| 0 <= j < find_ws(s) ==> !is_ws(s[j]),
        find_ws(s) < s.len() ==> is_ws(s[find_ws(s)]),
    decreases s.len(),
{
    if s.len() > 0 && !is_ws(s[0]) {
        lemma_find_ws(s.drop_first());
        assert forall|j: int| 0 <= j < find_ws(s) implies !is_ws(s[j]) by {
            if j > 0 {
                assert(s[j] == s.drop_first()[j - 1]);
            }
        }
    }
}

pub proof fn lemma_find_ws_unique(s: Seq<char>, i: int)
    requires
        0 <= i <= s.len(),
        forall|j: int| 0 <= j < i ==> !is_ws(s[j]),
        i == s.len() || is_ws(s[i]),
    ensures
        find_ws(s) == i,
    decreases s.len(),
{
    if s.len() > 0 && i > 0 {
        assert forall|j: int| 0 <= j < i - 1 implies !is_ws(s.drop_first()[j]) by {
            assert(s.drop_first()[j] == s[j + 1]);
        }
        lemma_find_ws_unique(s.drop_first(), i - 1);
    }
}

/// First index `i` in `start..end` with `s[i] == c`, or `end`.
pub fn find_char(s: &[char], start: usize, end: usize, c: char) -> (i: usize)
    requires
        start <= end <= s@.len(),
    ensures
        start <= i <= end,
        i - start == find(s@.subrange(start as int, end as int), c),
{
    let mut i = start;
    while i < end && s[i] != c
        invariant
            start <= i <= end <= s@.len(),
            forall|j: int| start <= j < i ==> s@[j] != c,
        decreases end - i,
    {
        i = i + 1;
    }
    proof {
        let t = s@.subrange(start as int, end as int);
        lemma_find_unique(t, c, i - start);
    }
    i
}

/// First index `i` in `start..end` with `s[i]` white space, or `end`.
pub fn find_ws_in(s: &[char], start: usize, end: usize) -> (i: usize)
    requires
        start <= end <= s@.len(),
    ensures
        start <= i <= end,
        i - start == find_ws(s@.subrange(start as int, end as int)),
{
    let mut i = start;
    while i < end && !char_is_ws(s[i])
        invariant
            start <= i <= end <= s@.len(),
            forall|j: int| start <= j < i ==> !is_ws(s@[j]),
        decreases end - i,
    {
        i = i + 1;
    }
    proof {
        let t = s@.subrange(start as int, end as int);
        lemma_find_ws_unique(t, i - start);
    }
    i
}

// ---------------------------------------------------------------------------
// Trimming
// ---------------------------------------------------------------------------

/// `s` without its leading white space (`str::trim_start`).
pub open spec fn trim_start(s: Seq<char>) -> Seq<char>
    decreases s.len(),
{
    if s.len() > 0 && is_ws(s[0]) {
        trim_start(s.drop_first())
    } else {
        s
    }
}

/// `s` without its trailing white space (`str::trim_end`).
pub open spec fn trim_end(s: Seq<char>) -> Seq<char>
    decreases s.len(),
{
    if s.len() > 0 && is_ws(s.last()) {
        trim_end(s.drop_last())
    } else {
        s
    }
}

/// `s` without leading and trailing white space (`str::trim`).
pub open spec fn trim(s: Seq<char>) -> Seq<char> {
    trim_end(trim_start(s))
}

/// The bounds of `trim` of `s[start..end]`.
pub fn trim_range(s: &[char], start: usize, end: usize) -> (r: (usize, usize))
    requires
        start <= end <= s@.len(),
    ensures
        start <= r.0 <= r.1 <= end,
        s@.subrange(r.0 as int, r.1 as int) == trim(s@.subrange(start as int, end as int)),
{
    let mut a = start;
    while a < end && char_is_ws(s[a])
        invariant
            start <= a <= end <= s@.len(),
            trim_start(s@.subrange(start as int, end as int)) == trim_start(
                s@.subrange(a as int, end as int),
            ),
        decreases end - a,
    {
        proof {
            let t = s@.subrange(a as int, end as int);
            assert(t.drop_first() =~= s@.subrange(a + 1, end as int));
        }
        a = a + 1;
    }
    proof {
        let t = s@.subrange(a as int, end as int);
        assert(trim_start(t) == t);
    }
    let mut b = end;
    while b > a && char_is_ws(s[b - 1])
        invariant
            start <= a <= b <= end <= s@.len(),
            trim(s@.subrange(start as int, end as int)) == trim_end(
                s@.subrange(a as int, b as int),
            ),
        decreases b - a,
    {
        proof {
            let t = s@.subrange(a as int, b as int);
            assert(t.drop_last() =~= s@.subrange(a as int, b - 1));
        }
        b = b - 1;
    }
    (a, b)
}


// ---------------------------------------------------------------------------
// Splitting
// ---------------------------------------------------------------------------

/// The pieces of `s` that the index ranges `r` select.
pub open spec fn pieces(s: Seq<char>, r: Seq<(usize, usize)>) -> Seq<Seq<char>> {
    r.map_values(|p: (usize, usize)| s.subrange(p.0 as int, p.1 as int))
}

/// Every range of `r` lies within `start..end`.
pub open spec fn ranges_within(r: Seq<(usize, usize)>, start: int, end: int) -> bool {
    forall|k: int| 0 <= k < r.len() ==> start <= #[trigger] r[k].0 <= r[k].1 <= end
}

/// `l` without one trailing carriage return.
pub open spec fn strip_cr(l: Seq<char>) -> Seq<char> {
    if l.len() > 0 && l.last() == '\r' {
        l.drop_last()
    } else {
        l
    }
}

/// The lines of `s` as `str::lines` yields them: split at `\n`, a `\r`
/// just before the `\n` dropped, no empty line after a final `\n`.
pub open spec fn lines(s: Seq<char>) -> Seq<Seq<char>>
    decreases s.len(),
{
    if s.len() == 0 {
        seq![]
    } else {
        let i = find(s, '\n');
        if 0 <= i < s.len() {
            seq![strip_cr(s.take(i))] + lines(s.skip(i + 1))
        } else {
            seq![s]
        }
    }
}

/// The white-space separated words of `s` (`str::split_whitespace`).
pub open spec fn words(s: Seq<char>) -> Seq<Seq<char>>
    decreases s.len(),
{
    if s.len() == 0 {
        seq![]
    } else if is_ws(s[0]) {
        words(s.drop_first())
    } else {
        let i = find_ws(s);
        if 0 < i <= s.len() {
            seq![s.take(i)] + words(s.skip(i))
        } else {
            seq![s]
        }
    }
}

/// The pieces of `s` between the occurrences of `c` (`str::split` on a char).
pub open spec fn split_on(s: Seq<char>, c: char) -> Seq<Seq<char>>
    decreases s.len(),
{
    let i = find(s, c);
    if 0 <= i < s.len() {
        seq![s.take(i)] + split_on(s.skip(i + 1), c)
    } else {
        seq![s]
    }
}

/// `str::split_once` on a char: the text before and after the first `c`.
pub open spec fn split_once(s: Seq<char>, c: char) -> Option<(Seq<char>, Seq<char>)> {
    let i = find(s, c);
    if 0 <= i < s.len() {
        Some((s.take(i), s.skip(i + 1)))
    } else {
        None
    }
}

/// `str::strip_prefix`.
pub open spec fn strip_prefix(s: Seq<char>, p: Seq<char>) -> Option<Seq<char>> {
    if p.is_prefix_of(s) {
        Some(s.skip(p.len() as int))
    } else {
        None
    }
}

/// The ranges of the lines of `s[start..end]`.
pub fn line_ranges(s: &[char], start: usize, end: usize) -> (out: Vec<(usize, usize)>)
    requires
        start <= end <= s@.len(),
    ensures
        pieces(s@, out@) == lines(s@.subrange(start as int, end as int)),
        ranges_within(out@, start as int, end as int),
{
    let mut out: Vec<(usize, usize)> = Vec::new();
    let mut pos = start;
    while pos < end
        invariant
            start <= pos <= end <= s@.len(),
            lines(s@.subrange(start as int, end as int)) == pieces(s@, out@) + lines(
                s@.subrange(pos as int, end as int),
            ),
            ranges_within(out@, start as int, end as int),
        decreases end - pos,
    {
        let i = find_char(s, pos, end, '\n');
        let ghost t = s@.subrange(pos as int, end as int);
        let ghost before = pieces(s@, out@);
        if i == end {
            out.push((pos, end));
            proof {
                assert(pieces(s@, out@) =~= before + seq![t]);
                assert(lines(s@.subrange(end as int, end as int)) =~= Seq::<Seq<char>>::empty());
            }
            pos = end;
        } else {
            let mut e = i;
            if e > pos && s[e - 1] == '\r' {
                e = e - 1;
            }
            out.push((pos, e));
            proof {
                assert(t.take(i - pos) =~= s@.subrange(pos as int, i as int));
                assert(t.skip(i - pos + 1) =~= s@.subrange(i + 1, end as int));
                let l = t.take(i - pos);
                if i > pos && s@[i - 1] == '\r' {
                    assert(strip_cr(l) =~= s@.subrange(pos as int, e as int));
                } else {
                    assert(strip_cr(l) =~= s@.subrange(pos as int, e as int));
                }
                assert(pieces(s@, out@) =~= before + seq![strip_cr(l)]);
            }
            pos = i + 1;
        }
    }
    proof {
        assert(lines(s@.subrange(pos as int, end as int)) =~= Seq::<Seq<char>>::empty());
        assert(pieces(s@, out@) + Seq::<Seq<char>>::empty() =~= pieces(s@, out@));
    }
    out
}

/// The ranges of the white-space separated words of `s[start..end]`.
pub fn word_ranges(s: &[char], start: usize, end: usize) -> (out: Vec<(usize, usize)>)
    requires
        start <= end <= s@.len(),
    ensures
        pieces(s@, out@) == words(s@.subrange(start as int, end as int)),
        ranges_within(out@, start as int, end as int),
{
    let mut out: Vec<(usize, usize)> = Vec::new();
    let mut pos = start;
    while pos < end
        invariant
            start <= pos <= end <= s@.len(),
            words(s@.subrange(start as int, end as int)) == pieces(s@, out@) + words(
                s@.subrange(pos as int, end as int),
            ),
            ranges_within(out@, start as int, end as int),
        decreases end - pos,
    {
        let ghost t = s@.subrange(pos as int, end as int);
        let ghost before = pieces(s@, out@);
        if char_is_ws(s[pos]) {
            proof {
                assert(t.drop_first() =~= s@.subrange(pos + 1, end as int));
            }
            pos = pos + 1;
        } else {
            let i = find_ws_in(s, pos, end);
            proof {
                lemma_find_ws(t);
                assert(t[0] == s@[pos as int]);
                assert(t.take(i - pos) =~= s@.subrange(pos as int, i as int));
                assert(t.skip(i - pos) =~= s@.subrange(i as int, end as int));
            }
            out.push((pos, i));
            proof {
                assert(pieces(s@, out@) =~= before + seq![t.take(i - pos)]);
            }
            pos = i;
        }
    }
    proof {
        assert(words(s@.subrange(pos as int, end as int)) =~= Seq::<Seq<char>>::empty());
        assert(pieces(s@, out@) + Seq::<Seq<char>>::empty() =~= pieces(s@, out@));
    }
    out
}

/// The ranges of the pieces of `s[start..end]` between occurrences of `c`.
pub fn split_ranges(s: &[char], start: usize, end: usize, c: char) -> (out: Vec<(usize, usize)>)
    requires
        start <= end <= s@.len(),
    ensures
        pieces(s@, out@) == split_on(s@.subrange(start as int, end as int), c),
        ranges_within(out@, start as int, end as int),
        out@.len() >= 1,
{
    let mut out: Vec<(usize, usize)> = Vec::new();
    let mut pos = start;
    loop
        invariant
            start <= pos <= end <= s@.len(),
            split_on(s@.subrange(start as int, end as int), c) == pieces(s@, out@) + split_on(
                s@.subrange(pos as int, end as int),
                c,
            ),
            ranges_within(out@, start as int, end as int),
        decreases end - pos,
    {
        let i = find_char(s, pos, end, c);
        let ghost t = s@.subrange(pos as int, end as int);
        let ghost before = pieces(s@, out@);
        if i == end {
            out.push((pos, end));
            proof {
                assert(pieces(s@, out@) =~= before + seq![t]);
            }
            return out;
        }
        out.push((pos, i));
        proof {
            assert(t.take(i - pos) =~= s@.subrange(pos as int, i as int));
            assert(t.skip(i - pos + 1) =~= s@.subrange(i + 1, end as int));
            assert(pieces(s@, out@) =~= before + seq![t.take(i - pos)]);
        }
        pos = i + 1;
    }
}

/// Whether `p` is a prefix of `s[start..end]`.
pub fn has_prefix(s: &[char], start: usize, end: usize, p: &[char]) -> (b: bool)
    requires
        start <= end <= s@.len(),
    ensures
        b == p@.is_prefix_of(s@.subrange(start as int, end as int)),
{
    if p.len() > end - start {
        return false;
    }
    let mut k: usize = 0;
    while k < p.len()
        invariant
            start <= end <= s@.len(),
            p@.len() <= end - start,
            0 <= k <= p@.len(),
            forall|j: int| 0 <= j < k ==> p@[j] == s@[start + j],
        decreases p@.len() - k,
    {
        if p[k] != s[start + k] {
            return false;
        }
        k = k + 1;
    }
    true
}


/// Index of the first occurrence of `p` in `s` (`str::find` with a string
/// pattern, counted in characters).
pub open spec fn find_sub(s: Seq<char>, p: Seq<char>) -> Option<int>
    decreases s.len(),
{
    if p.is_prefix_of(s) {
        Some(0)
    } else if s.len() == 0 {
        None
    } else {
        match find_sub(s.drop_first(), p) {
            Some(i) => Some(i + 1),
            None => None,
        }
    }
}

/// `find_sub` is the first index at which `p` occurs.
pub proof fn lemma_find_sub_unique(s: Seq<char>, p: Seq<char>, i: int)
    requires
        0 <= i <= s.len(),
        forall|j: int| 0 <= j < i ==> !p.is_prefix_of(#[trigger] s.skip(j)),
    ensures
        p.is_prefix_of(s.skip(i)) ==> find_sub(s, p) == Some(i),
        !p.is_prefix_of(s.skip(i)) && i == s.len() ==> find_sub(s, p) is None,
    decreases s.len(),
{
    assert(s.skip(0) =~= s);
    if i > 0 {
        assert(!p.is_prefix_of(s.skip(0)));
        assert forall|j: int| 0 <= j < i - 1 implies !p.is_prefix_of(
            #[trigger] s.drop_first().skip(j),
        ) by {
            assert(s.drop_first().skip(j) =~= s.skip(j + 1));
        }
        assert(s.drop_first().skip(i - 1) =~= s.skip(i));
        lemma_find_sub_unique(s.drop_first(), p, i - 1);
    }
}

/// Whether `s[start..end]` is exactly `p`.
pub fn range_eq(s: &[char], start: usize, end: usize, p: &[char]) -> (b: bool)
    requires
        start <= end <= s@.len(),
    ensures
        b == (s@.subrange(start as int, end as int) == p@),
{
    if end - start != p.len() {
        return false;
    }
    let r = has_prefix(s, start, end, p);
    proof {
        if r {
            assert(s@.subrange(start as int, end as int) =~= p@);
        }
    }
    r
}

/// Where `find_sub` finds `p`, `p` occurs.
pub proof fn lemma_find_sub_found(s: Seq<char>, p: Seq<char>)
    ensures
        find_sub(s, p) matches Some(i) ==> 0 <= i && i + p.len() <= s.len() && p.is_prefix_of(
            s.skip(i),
        ),
    decreases s.len(),
{
    if !p.is_prefix_of(s) && s.len() > 0 {
        lemma_find_sub_found(s.drop_first(), p);
        if let Some(i) = find_sub(s.drop_first(), p) {
            assert(s.drop_first().skip(i) =~= s.skip(i + 1));
        }
    } else if p.is_prefix_of(s) {
        assert(s.skip(0) =~= s);
    }
}

/// Index (from `start`) of the first occurrence of `p` in `s[start..end]`.
pub fn find_str(s: &[char], start: usize, end: usize, p: &[char]) -> (r: Option<usize>)
    requires
        start <= end <= s@.len(),
    ensures
        match r {
            Some(i) => start <= i <= end && find_sub(s@.subrange(start as int, end as int), p@)
                == Some(i - start),
            None => find_sub(s@.subrange(start as int, end as int), p@) is None,
        },
{
    let ghost t = s@.subrange(start as int, end as int);
    let mut i = start;
    loop
        invariant
            start <= i <= end <= s@.len(),
            t == s@.subrange(start as int, end as int),
            forall|j: int| 0 <= j < i - start ==> !p@.is_prefix_of(#[trigger] t.skip(j)),
        decreases end - i,
    {
        let found = has_prefix(s, i, end, p);
        proof {
            assert(t.skip(i - start) =~= s@.subrange(i as int, end as int));
        }
        if found {
            proof {
                lemma_find_sub_unique(t, p@, i - start);
            }
            return Some(i);
        }
        if i == end {
            proof {
                lemma_find_sub_unique(t, p@, i - start);
            }
            return None;
        }
        i = i + 1;
    }
}

/// The pieces of `s` between the occurrences of `p`, taken left to right
/// (`str::split` with a non-empty string pattern).
pub open spec fn split_str(s: Seq<char>, p: Seq<char>) -> Seq<Seq<char>>
    decreases s.len(),
{
    match find_sub(s, p) {
        Some(i) => if p.len() > 0 && 0 <= i && i + p.len() <= s.len() {
            seq![s.take(i)] + split_str(s.skip(i + p.len()), p)
        } else {
            seq![s]
        },
        None => seq![s],
    }
}

/// The ranges of the pieces of `s[start..end]` between occurrences of the
/// non-empty pattern `p`.
pub fn split_str_ranges(s: &[char], start: usize, end: usize, p: &[char]) -> (out: Vec<(usize, usize)>)
    requires
        start <= end <= s@.len(),
        p@.len() > 0,
    ensures
        pieces(s@, out@) == split_str(s@.subrange(start as int, end as int), p@),
        ranges_within(out@, start as int, end as int),
{
    let mut out: Vec<(usize, usize)> = Vec::new();
    let mut pos = start;
    loop
        invariant
            start <= pos <= end <= s@.len(),
            p@.len() > 0,
            split_str(s@.subrange(start as int, end as int), p@) == pieces(s@, out@) + split_str(
                s@.subrange(pos as int, end as int),
                p@,
            ),
            ranges_within(out@, start as int, end as int),
        decreases end - pos,
    {
        let ghost t = s@.subrange(pos as int, end as int);
        let ghost before = pieces(s@, out@);
        proof {
            lemma_find_sub_found(t, p@);
        }
        match find_str(s, pos, end, p) {
            Some(i) => {
                out.push((pos, i));
                proof {
                    assert(t.take(i - pos) =~= s@.subrange(pos as int, i as int));
                    assert(t.skip(i - pos + p@.len()) =~= s@.subrange(i + p@.len(), end as int));
                    assert(pieces(s@, out@) =~= before + seq![t.take(i - pos)]);
                }
                pos = i + p.len();
            },
            None => {
                out.push((pos, end));
                proof {
                    assert(pieces(s@, out@) =~= before + seq![t]);
                }
                return out;
            },
        }
    }
}

// ---------------------------------------------------------------------------
// Integers
// ---------------------------------------------------------------------------

/// Every character of `s` is an ASCII digit.
pub open spec fn all_digits(s: Seq<char>) -> bool {
    forall|i: int| 0 <= i < s.len() ==> is_digit(#[trigger] s[i])
}

/// The number that the decimal digits `s` spell.
pub open spec fn digits_value(s: Seq<char>) -> int
    decreases s.len(),
{
    if s.len() == 0 {
        0
    } else {
        digits_value(s.drop_last()) * 10 + digit_value(s.last())
    }
}

/// What `u64::from_str` gives for `s`: an optional `+`, then at least one
/// decimal digit, and a value that fits.
pub open spec fn parse_u64_spec(s: Seq<char>) -> Option<u64> {
    let d = if s.len() > 0 && s[0] == '+' {
        s.drop_first()
    } else {
        s
    };
    if d.len() > 0 && all_digits(d) && digits_value(d) <= u64::MAX {
        Some(digits_value(d) as u64)
    } else {
        None
    }
}

/// What `i64::from_str` gives for `s`: an optional `+` or `-`, then at
/// least one decimal digit, and a value in range.
pub open spec fn parse_i64_spec(s: Seq<char>) -> Option<i64> {
    if s.len() > 0 && s[0] == '-' {
        let d = s.drop_first();
        if d.len() > 0 && all_digits(d) && digits_value(d) <= 0x8000_0000_0000_0000 {
            Some((0 - digits_value(d)) as i64)
        } else {
            None
        }
    } else {
        let d = if s.len() > 0 && s[0] == '+' {
            s.drop_first()
        } else {
            s
        };
        if d.len() > 0 && all_digits(d) && digits_value(d) <= i64::MAX {
            Some(digits_value(d) as i64)
        } else {
            None
        }
    }
}

pub proof fn lemma_digits_value_nonneg(s: Seq<char>)
    requires
        all_digits(s),
    ensures
        digits_value(s) >= 0,
    decreases s.len(),
{
    if s.len() > 0 {
        assert(all_digits(s.drop_last())) by {
            assert forall|i: int| 0 <= i < s.drop_last().len() implies is_digit(
                #[trigger] s.drop_last()[i],
            ) by {
                assert(s.drop_last()[i] == s[i]);
            }
        }
        lemma_digits_value_nonneg(s.drop_last());
        assert(is_digit(s[s.len() - 1]));
    }
}

/// A prefix of a digit string never spells a larger number.
pub proof fn lemma_digits_value_prefix(s: Seq<char>, k: int)
    requires
        all_digits(s),
        0 <= k <= s.len(),
    ensures
        digits_value(s.take(k)) <= digits_value(s),
    decreases s.len(),
{
    if k == s.len() {
        assert(s.take(k) =~= s);
    } else {
        let t = s.drop_last();
        assert(all_digits(t)) by {
            assert forall|i: int| 0 <= i < t.len() implies is_digit(#[trigger] t[i]) by {
                assert(t[i] == s[i]);
            }
        }
        lemma_digits_value_prefix(t, k);
        lemma_digits_value_nonneg(t);
        assert(t.take(k) =~= s.take(k));
        assert(is_digit(s[s.len() - 1]));
    }
}

/// The value of the digits `s[a..b]` when they are all digits and the
/// value is at most `bound`; `None` otherwise.
fn parse_digits(s: &[char], a: usize, b: usize, bound: u64) -> (r: Option<u64>)
    requires
        a <= b <= s@.len(),
        9 <= bound,
    ensures
        ({
            let d = s@.subrange(a as int, b as int);
            match r {
                Some(v) => d.len() > 0 && all_digits(d) && digits_value(d) <= bound && v
                    == digits_value(d),
                None => !(d.len() > 0 && all_digits(d) && digits_value(d) <= bound),
            }
        }),
{
    let ghost d = s@.subrange(a as int, b as int);
    if a == b {
        return None;
    }
    let mut v: u64 = 0;
    let mut i = a;
    while i < b
        invariant
            a <= i <= b <= s@.len(),
            d == s@.subrange(a as int, b as int),
            all_digits(s@.subrange(a as int, i as int)),
            v == digits_value(s@.subrange(a as int, i as int)),
            v <= bound,
            9 <= bound,
        decreases b - i,
    {
        let c = s[i];
        if !('0' <= c && c <= '9') {
            proof {
                assert(d[i - a] == c);
            }
            return None;
        }
        let dg = (c as u32 - '0' as u32) as u64;
        let ghost p = s@.subrange(a as int, (i + 1) as int);
        proof {
            assert(p.drop_last() =~= s@.subrange(a as int, i as int));
            assert(p.last() == c);
            assert(all_digits(p)) by {
                assert forall|j: int| 0 <= j < p.len() implies is_digit(#[trigger] p[j]) by {
                    if j < p.len() - 1 {
                        assert(p[j] == s@.subrange(a as int, i as int)[j]);
                    }
                }
            }
        }
        if v > (bound - dg) / 10 {
            proof {
                assert(digits_value(p) == v * 10 + dg);
                assert(v * 10 + dg > bound) by (nonlinear_arith)
                    requires
                        v > (bound - dg) / 10,
                        dg <= 9,
                        9 <= bound,
                ;
                if all_digits(d) {
                    assert(d.take(i + 1 - a) =~= p);
                    lemma_digits_value_prefix(d, i + 1 - a);
                }
            }
            return None;
        }
        proof {
            assert(v * 10 + dg <= bound) by (nonlinear_arith)
                requires
                    v <= (bound - dg) / 10,
                    dg <= bound,
            ;
        }
        v = v * 10 + dg;
        i = i + 1;
    }
    proof {
        assert(s@.subrange(a as int, i as int) =~= d);
    }
    Some(v)
}

/// `u64::from_str` on `s[a..b]`.
pub fn parse_u64(s: &[char], a: usize, b: usize) -> (r: Option<u64>)
    requires
        a <= b <= s@.len(),
    ensures
        r == parse_u64_spec(s@.subrange(a as int, b as int)),
{
    let ghost t = s@.subrange(a as int, b as int);
    if a < b && s[a] == '+' {
        proof {
            assert(t.drop_first() =~= s@.subrange(a + 1, b as int));
        }
        parse_digits(s, a + 1, b, u64::MAX)
    } else {
        parse_digits(s, a, b, u64::MAX)
    }
}

/// What `u32::from_str` gives for `s`: an optional `+`, then at least one
/// decimal digit, and a value that fits.
pub open spec fn parse_u32_spec(s: Seq<char>) -> Option<u32> {
    let d = if s.len() > 0 && s[0] == '+' {
        s.drop_first()
    } else {
        s
    };
    if d.len() > 0 && all_digits(d) && digits_value(d) <= u32::MAX {
        Some(digits_value(d) as u32)
    } else {
        None
    }
}

/// `u32::from_str` on `s[a..b]`.
pub fn parse_u32(s: &[char], a: usize, b: usize) -> (r: Option<u32>)
    requires
        a <= b <= s@.len(),
    ensures
        r == parse_u32_spec(s@.subrange(a as int, b as int)),
{
    let ghost t = s@.subrange(a as int, b as int);
    let v = if a < b && s[a] == '+' {
        proof {
            assert(t.drop_first() =~= s@.subrange(a + 1, b as int));
        }
        parse_digits(s, a + 1, b, u32::MAX as u64)
    } else {
        parse_digits(s, a, b, u32::MAX as u64)
    };
    match v {
        Some(n) => Some(n as u32),
        None => None,
    }
}

/// `i64::from_str` on `s[a..b]`.
pub fn parse_i64(s: &[char], a: usize, b: usize) -> (r: Option<i64>)
    requires
        a <= b <= s@.len(),
    ensures
        r == parse_i64_spec(s@.subrange(a as int, b as int)),
{
    let ghost t = s@.subrange(a as int, b as int);
    if a < b && s[a] == '-' {
        proof {
            assert(t.drop_first() =~= s@.subrange(a + 1, b as int));
        }
        match parse_digits(s, a + 1, b, 0x8000_0000_0000_0000) {
            Some(m) => {
                if m == 0x8000_0000_0000_0000 {
                    Some(i64::MIN)
                } else {
                    Some(0 - (m as i64))
                }
            },
            None => None,
        }
    } else if a < b && s[a] == '+' {
        proof {
            assert(t.drop_first() =~= s@.subrange(a + 1, b as int));
        }
        match parse_digits(s, a + 1, b, i64::MAX as u64) {
            Some(m) => Some(m as i64),
            None => None,
        }
    } else {
        match parse_digits(s, a, b, i64::MAX as u64) {
            Some(m) => Some(m as i64),
            None => None,
        }
    }
}

/// The decimal digits of `n` (`n.to_string()` for an unsigned integer).
pub open spec fn dec(n: nat) -> Seq<char>
    decreases n,
{
    if n < 10 {
        seq![digit_char(n as int)]
    } else {
        dec(n / 10).push(digit_char((n % 10) as int))
    }
}

/// `s` padded on the left with `c` to at least `w` characters.
pub open spec fn pad_left(s: Seq<char>, w: int, c: char) -> Seq<char> {
    if s.len() < w {
        Seq::new((w - s.len()) as nat, |_i: int| c) + s
    } else {
        s
    }
}

/// `s` padded on the right with spaces to at least `w` characters
/// (`{:<w}`).
pub open spec fn pad_right(s: Seq<char>, w: int) -> Seq<char> {
    if s.len() < w {
        s + Seq::new((w - s.len()) as nat, |_i: int| ' ')
    } else {
        s
    }
}

/// `v` in decimal, zero padded to `w` characters with the sign first
/// (`{:0w}`).
pub open spec fn zero_padded(v: int, w: int) -> Seq<char> {
    if v < 0 {
        seq!['-'] + pad_left(dec((0 - v) as nat), w - 1, '0')
    } else {
        pad_left(dec(v as nat), w, '0')
    }
}

// ---------------------------------------------------------------------------
// Building strings
// ---------------------------------------------------------------------------

/// `String::push`: appends `c`.
#[verifier::external_body]
pub(crate) fn push_char(s: &mut String, c: char)
    ensures
        final(s)@ == old(s)@.push(c),
{
    s.push(c);
}

/// Appends `s[a..b]` to `out`.
pub fn push_range(out: &mut String, s: &[char], a: usize, b: usize)
    requires
        a <= b <= s@.len(),
    ensures
        final(out)@ == old(out)@ + s@.subrange(a as int, b as int),
{
    let mut i = a;
    while i < b
        invariant
            a <= i <= b <= s@.len(),
            out@ == old(out)@ + s@.subrange(a as int, i as int),
        decreases b - i,
    {
        push_char(out, s[i]);
        proof {
            assert(s@.subrange(a as int, i + 1) =~= s@.subrange(a as int, i as int).push(s@[i as int]));
        }
        i = i + 1;
    }
}

/// The string of the characters `s[a..b]`.
pub fn string_of_range(s: &[char], a: usize, b: usize) -> (out: String)
    requires
        a <= b <= s@.len(),
    ensures
        out@ == s@.subrange(a as int, b as int),
{
    let mut out = String::new();
    push_range(&mut out, s, a, b);
    proof {
        assert(Seq::<char>::empty() + s@.subrange(a as int, b as int) =~= s@.subrange(a as int, b as int));
    }
    out
}

/// Appends `n` times the character `c`.
pub fn push_repeat(out: &mut String, c: char, n: usize)
    ensures
        final(out)@ == old(out)@ + Seq::new(n as nat, |_i: int| c),
{
    let mut k: usize = 0;
    while k < n
        invariant
            0 <= k <= n,
            out@ == old(out)@ + Seq::new(k as nat, |_i: int| c),
        decreases n - k,
    {
        push_char(out, c);
        proof {
            assert(Seq::new((k + 1) as nat, |_i: int| c) =~= Seq::new(k as nat, |_i: int| c).push(c));
        }
        k = k + 1;
    }
}

/// Appends the decimal digits of `n`.
pub fn push_dec(out: &mut String, n: u64)
    ensures
        final(out)@ == old(out)@ + dec(n as nat),
    decreases n,
{
    if n >= 10 {
        push_dec(out, n / 10);
    }
    let d = (n % 10) as u32;
    let c = char_from_digit(d);
    push_char(out, c);
    proof {
        if n >= 10 {
            assert(old(out)@ + dec(n as nat) =~= old(out)@ + dec((n / 10) as nat) + seq![c]);
        } else {
            assert(old(out)@ + dec(n as nat) =~= old(out)@ + seq![c]);
        }
    }
}

/// The ASCII digit for `d`.
fn char_from_digit(d: u32) -> (c: char)
    requires
        d < 10,
    ensures
        c == digit_char(d as int),
{
    if d == 0 { '0' }
    else if d == 1 { '1' }
    else if d == 2 { '2' }
    else if d == 3 { '3' }
    else if d == 4 { '4' }
    else if d == 5 { '5' }
    else if d == 6 { '6' }
    else if d == 7 { '7' }
    else if d == 8 { '8' }
    else { '9' }
}

pub proof fn lemma_dec_len(n: nat)
    ensures
        1 <= dec(n).len(),
        n < 10 ==> dec(n).len() == 1,
        n >= 10 ==> dec(n).len() >= 2,
        n < 100 ==> dec(n).len() <= 2,
    decreases n,
{
    if n >= 10 {
        lemma_dec_len(n / 10);
    }
}

/// The decimal digits of `n` are digits and spell `n`.
pub proof fn lemma_dec_digits(n: nat)
    ensures
        all_digits(dec(n)),
        digits_value(dec(n)) == n,
        dec(n).len() > 0,
        dec(n)[0] != '+',
    decreases n,
{
    if n >= 10 {
        lemma_dec_digits(n / 10);
        let t = dec(n / 10);
        assert(dec(n).drop_last() =~= t);
        assert(digit_value(digit_char((n % 10) as int)) == n % 10);
        assert(digits_value(dec(n)) == digits_value(t) * 10 + n % 10);
        assert(n == (n / 10) * 10 + n % 10);
        assert forall|i: int| 0 <= i < dec(n).len() implies is_digit(#[trigger] dec(n)[i]) by {
            if i < t.len() {
                assert(dec(n)[i] == t[i]);
            }
        }
    } else {
        assert(digit_value(digit_char(n as int)) == n);
        assert(dec(n).drop_last() =~= Seq::<char>::empty());
        assert(digits_value(dec(n).drop_last()) == 0);
        assert(digits_value(dec(n)) == digits_value(dec(n).drop_last()) * 10 + digit_value(
            dec(n).last(),
        ));
    }
}

/// A number that `push_dec` writes reads back with `u64::from_str`.
pub proof fn lemma_dec_reads_back(n: u64)
    ensures
        parse_u64_spec(dec(n as nat)) == Some(n),
{
    lemma_dec_digits(n as nat);
}

/// Appends `n` in decimal, zero padded on the left to `w` characters.
pub fn push_dec_padded(out: &mut String, n: u64, w: usize)
    ensures
        final(out)@ == old(out)@ + pad_left(dec(n as nat), w as int, '0'),
{
    let mut digits = String::new();
    push_dec(&mut digits, n);
    let len = digits.as_str().unicode_len();
    proof {
        assert(digits@ =~= dec(n as nat));
    }
    if len < w {
        push_repeat(out, '0', w - len);
    }
    let ghost mid = out@;
    out.append(digits.as_str());
    proof {
        if len < w {
            assert(out@ =~= old(out)@ + pad_left(dec(n as nat), w as int, '0'));
        } else {
            assert(out@ =~= old(out)@ + pad_left(dec(n as nat), w as int, '0'));
        }
    }
}

/// Appends `v` in decimal, zero padded to `w` characters with the sign
/// first (`{:0w}`).
pub fn push_int_padded(out: &mut String, v: i64, w: usize)
    requires
        w >= 1,
    ensures
        final(out)@ == old(out)@ + zero_padded(v as int, w as int),
{
    if v < 0 {
        push_char(out, '-');
        let mag: u64 = if v == i64::MIN {
            0x8000_0000_0000_0000
        } else {
            (0 - v) as u64
        };
        push_dec_padded(out, mag, w - 1);
        proof {
            assert(out@ =~= old(out)@ + zero_padded(v as int, w as int));
        }
    } else {
        push_dec_padded(out, v as u64, w);
    }
}

/// Appends the string `t` padded on the right with spaces to `w`
/// characters.
pub fn push_padded_right(out: &mut String, t: &str, w: usize)
    ensures
        final(out)@ == old(out)@ + pad_right(t@, w as int),
{
    out.append(t);
    let len = t.unicode_len();
    if len < w {
        push_repeat(out, ' ', w - len);
    }
    proof {
        assert(out@ =~= old(out)@ + pad_right(t@, w as int));
    }
}

} // verus!
