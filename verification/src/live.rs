//! The decisions of the live dashboard: which page a key leads to, when
//! the loop quits, and when the slow detail and GPU data are fetched
//! again, with the bookkeeping that keeps at most one fetch of each kind
//! under way. The terminal loop that draws and reads keys, and the workers
//! that fetch, live outside.
use vstd::prelude::*;

verus! {

/// A page of the live dashboard.
#[derive(Clone, Copy, Debug, PartialEq, Eq, Structural)]
pub enum Page {
    Status,
    Details,
    Sensors,
}

/// The page after `p` in the tab order Status, Details, Sensors.
pub open spec fn next_page(p: Page) -> Page {
    match p {
        Page::Status => Page::Details,
        Page::Details => Page::Sensors,
        Page::Sensors => Page::Status,
    }
}

impl Page {
    /// The page that `tab` leads to.
    pub fn next(self) -> (p: Page)
        ensures
            p == next_page(self),
    {
        match self {
            Page::Status => Page::Details,
            Page::Details => Page::Sensors,
            Page::Sensors => Page::Status,
        }
    }
}

/// Three tabs lead back to the page one started on, and no tab stays.
pub proof fn lemma_next_page_cycles(p: Page)
    ensures
        next_page(next_page(next_page(p))) == p,
        next_page(p) != p,
{
}

/// A key press, as far as the dashboard tells keys apart.
#[derive(Clone, Copy, Debug, PartialEq, Eq, Structural)]
pub enum Key {
    Char(char),
    Esc,
    Tab,
    Other,
}

/// What the dashboard does on a key.
#[derive(Clone, Copy, Debug, PartialEq, Eq, Structural)]
pub enum KeyAction {
    Quit,
    Show(Page),
}

/// `q`, Esc and Ctrl-C quit; `1`, `2`, `3` show Status, Details, Sensors;
/// tab shows the next page; any other key keeps the page.
pub open spec fn key_action(page: Page, key: Key, ctrl: bool) -> KeyAction {
    match key {
        Key::Char(c) => if c == 'q' {
            KeyAction::Quit
        } else if c == 'c' && ctrl {
            KeyAction::Quit
        } else if c == '1' {
            KeyAction::Show(Page::Status)
        } else if c == '2' {
            KeyAction::Show(Page::Details)
        } else if c == '3' {
            KeyAction::Show(Page::Sensors)
        } else {
            KeyAction::Show(page)
        },
        Key::Esc => KeyAction::Quit,
        Key::Tab => KeyAction::Show(next_page(page)),
        Key::Other => KeyAction::Show(page),
    }
}

/// The live-mode keys: tab always moves on to the next page of the cycle
/// Status, Details, Sensors (so it never keeps the page, and three tabs
/// come back); `1`, `2`, `3` show Status, Details, Sensors; `q` and Esc
/// quit, and so does `c` with Control; other keys keep the page.
pub proof fn lemma_keys(page: Page, ctrl: bool, c: char)
    ensures
        key_action(page, Key::Tab, ctrl) == KeyAction::Show(next_page(page)),
        key_action(page, Key::Tab, ctrl) != KeyAction::Show(page),
        key_action(Page::Sensors, Key::Tab, ctrl) == KeyAction::Show(Page::Status),
        key_action(page, Key::Char('1'), ctrl) == KeyAction::Show(Page::Status),
        key_action(page, Key::Char('2'), ctrl) == KeyAction::Show(Page::Details),
        key_action(page, Key::Char('3'), ctrl) == KeyAction::Show(Page::Sensors),
        key_action(page, Key::Char('q'), ctrl) == KeyAction::Quit,
        key_action(page, Key::Esc, ctrl) == KeyAction::Quit,
        key_action(page, Key::Char('c'), true) == KeyAction::Quit,
        c != 'q' && c != '1' && c != '2' && c != '3' && !(c == 'c' && ctrl) ==> key_action(
            page,
            Key::Char(c),
            ctrl,
        ) == KeyAction::Show(page),
        key_action(page, Key::Other, ctrl) == KeyAction::Show(page),
{
    lemma_next_page_cycles(page);
}

/// The dashboard's answer to a key press on `page`; `ctrl` tells whether
/// the Control modifier was held.
pub fn handle_key(page: Page, key: Key, ctrl: bool) -> (a: KeyAction)
    ensures
        a == key_action(page, key, ctrl),
        key == Key::Tab ==> a == KeyAction::Show(next_page(page)),
{
    match key {
        Key::Char(c) => {
            if c == 'q' {
                KeyAction::Quit
            } else if c == 'c' && ctrl {
                KeyAction::Quit
            } else if c == '1' {
                KeyAction::Show(Page::Status)
            } else if c == '2' {
                KeyAction::Show(Page::Details)
            } else if c == '3' {
                KeyAction::Show(Page::Sensors)
            } else {
                KeyAction::Show(page)
            }
        },
        Key::Esc => KeyAction::Quit,
        Key::Tab => KeyAction::Show(page.next()),
        Key::Other => KeyAction::Show(page),
    }
}

/// How long fetched system details stay fresh, in nanoseconds.
pub const DETAILS_TTL_NANOS: u64 = 15_000_000_000;

/// How long fetched GPU telemetry stays fresh, in nanoseconds.
pub const GPU_TTL_NANOS: u64 = 3_000_000_000;

/// Whether to start fetching data for a page: only while the page is
/// shown, no fetch is under way, and there is no data yet or the data is
/// older than `ttl_nanos`.
pub fn should_fetch(shown: bool, pending: bool, cached: bool, age_nanos: u64, ttl_nanos: u64) -> (b: bool)
    ensures
        b == (shown && !pending && (!cached || age_nanos > ttl_nanos)),
{
    shown && !pending && (!cached || age_nanos > ttl_nanos)
}


/// What the dashboard keeps of one kind of slow data (system details, or
/// GPU telemetry): whether some has arrived, and whether a fetch is under
/// way.
#[derive(Clone, Copy, Debug, PartialEq, Eq, Structural)]
pub struct Fetch {
    pub cached: bool,
    pub pending: bool,
}

/// What happens to a kind of slow data: a turn of the loop, with whether
/// its page is shown and how old the cached data is; or a fetch's result
/// arriving.
#[derive(Clone, Copy, Debug, PartialEq, Eq, Structural)]
pub enum FetchEvent {
    Tick { shown: bool, age_nanos: u64 },
    Arrived,
}

/// Nothing fetched yet, nothing under way.
pub open spec fn fetch_start() -> Fetch {
    Fetch { cached: false, pending: false }
}

/// The next state, and whether to start a fetch now: a turn starts one
/// (and marks it under way) exactly when `should_fetch` says so; an
/// arrival caches the data and ends the fetch.
pub open spec fn fetch_next(s: Fetch, e: FetchEvent, ttl_nanos: u64) -> (Fetch, bool) {
    match e {
        FetchEvent::Tick { shown, age_nanos } => if shown && !s.pending && (!s.cached || age_nanos
            > ttl_nanos) {
            (Fetch { cached: s.cached, pending: true }, true)
        } else {
            (s, false)
        },
        FetchEvent::Arrived => (Fetch { cached: true, pending: false }, false),
    }
}

/// One step of the bookkeeping of a kind of slow data.
pub fn fetch_step(s: Fetch, e: FetchEvent, ttl_nanos: u64) -> (r: (Fetch, bool))
    ensures
        r == fetch_next(s, e, ttl_nanos),
{
    match e {
        FetchEvent::Tick { shown, age_nanos } => {
            if should_fetch(shown, s.pending, s.cached, age_nanos, ttl_nanos) {
                (Fetch { cached: s.cached, pending: true }, true)
            } else {
                (s, false)
            }
        },
        FetchEvent::Arrived => (Fetch { cached: true, pending: false }, false),
    }
}

/// The state after `events` from the start, and the number of fetches
/// started and not yet arrived.
pub open spec fn fetch_run(events: Seq<FetchEvent>, ttl_nanos: u64) -> (Fetch, int)
    decreases events.len(),
{
    if events.len() == 0 {
        (fetch_start(), 0)
    } else {
        let (s, k) = fetch_run(events.drop_last(), ttl_nanos);
        let e = events.last();
        let (t, started) = fetch_next(s, e, ttl_nanos);
        (t, k + if started {
            1int
        } else {
            0
        } - if e is Arrived {
            1int
        } else {
            0
        })
    }
}

/// A result arrives only from a fetch that was started and has not yet
/// arrived.
pub open spec fn fetch_trace(events: Seq<FetchEvent>, ttl_nanos: u64) -> bool {
    forall|i: int|
        0 <= i < events.len() && #[trigger] events[i] is Arrived ==> fetch_run(events.take(i), ttl_nanos).1
            > 0
}

/// At most one fetch of a kind is under way at any time, and the state
/// knows it: along any run of the loop, the fetches started and not yet
/// arrived number 0 or 1, and the state says a fetch is under way exactly
/// when there is one.
pub proof fn lemma_single_fetch(events: Seq<FetchEvent>, ttl_nanos: u64)
    requires
        fetch_trace(events, ttl_nanos),
    ensures
        0 <= fetch_run(events, ttl_nanos).1 <= 1,
        fetch_run(events, ttl_nanos).0.pending <==> fetch_run(events, ttl_nanos).1 == 1,
    decreases events.len(),
{
    if events.len() > 0 {
        let front = events.drop_last();
        assert forall|i: int| 0 <= i < front.len() && #[trigger] front[i] is Arrived implies fetch_run(
            front.take(i),
            ttl_nanos,
        ).1 > 0 by {
            assert(front.take(i) =~= events.take(i));
            assert(events[i] is Arrived);
        }
        lemma_single_fetch(front, ttl_nanos);
        let last = events.len() - 1;
        assert(events.take(last) =~= front);
        if events[last] is Arrived {
            assert(fetch_run(events.take(last), ttl_nanos).1 > 0);
        }
    }
}

} // verus!
