use healthstatus::live::{
    fetch_step, handle_key, should_fetch, Fetch, FetchEvent, Key, KeyAction, Page, DETAILS_TTL_NANOS,
    GPU_TTL_NANOS,
};

#[test]
fn tab_cycles_pages() {
    assert_eq!(Page::Status.next(), Page::Details);
    assert_eq!(Page::Details.next(), Page::Sensors);
    assert_eq!(Page::Sensors.next(), Page::Status);
    assert_eq!(Page::Details.next().next().next(), Page::Details);
}

#[test]
fn keys_choose_pages_and_quit() {
    assert_eq!(handle_key(Page::Sensors, Key::Char('1'), false), KeyAction::Show(Page::Status));
    assert_eq!(handle_key(Page::Status, Key::Char('2'), false), KeyAction::Show(Page::Details));
    assert_eq!(handle_key(Page::Status, Key::Char('3'), false), KeyAction::Show(Page::Sensors));
    assert_eq!(handle_key(Page::Details, Key::Tab, false), KeyAction::Show(Page::Sensors));
    assert_eq!(handle_key(Page::Details, Key::Char('q'), false), KeyAction::Quit);
    assert_eq!(handle_key(Page::Details, Key::Esc, false), KeyAction::Quit);
    assert_eq!(handle_key(Page::Details, Key::Char('c'), true), KeyAction::Quit);
    assert_eq!(handle_key(Page::Details, Key::Char('c'), false), KeyAction::Show(Page::Details));
    assert_eq!(handle_key(Page::Sensors, Key::Other, false), KeyAction::Show(Page::Sensors));
}

#[test]
fn fetch_only_when_shown_idle_and_stale() {
    assert!(should_fetch(true, false, false, 0, GPU_TTL_NANOS));
    assert!(!should_fetch(false, false, false, 0, GPU_TTL_NANOS));
    assert!(!should_fetch(true, true, false, 0, GPU_TTL_NANOS));
    assert!(!should_fetch(true, false, true, DETAILS_TTL_NANOS, DETAILS_TTL_NANOS));
    assert!(should_fetch(true, false, true, DETAILS_TTL_NANOS + 1, DETAILS_TTL_NANOS));
}

#[test]
fn one_fetch_at_a_time() {
    let start = Fetch { cached: false, pending: false };
    let hidden = FetchEvent::Tick { shown: false, age_nanos: 0 };
    assert_eq!(fetch_step(start, hidden, GPU_TTL_NANOS), (start, false));
    let shown = FetchEvent::Tick { shown: true, age_nanos: 0 };
    let (s1, started) = fetch_step(start, shown, GPU_TTL_NANOS);
    assert!(started);
    assert_eq!(s1, Fetch { cached: false, pending: true });
    // While one is under way no second one starts, however old the data.
    let stale = FetchEvent::Tick { shown: true, age_nanos: u64::MAX };
    assert_eq!(fetch_step(s1, stale, GPU_TTL_NANOS), (s1, false));
    let (s2, _) = fetch_step(s1, FetchEvent::Arrived, GPU_TTL_NANOS);
    assert_eq!(s2, Fetch { cached: true, pending: false });
    // Fresh data is kept; stale data is fetched again.
    let fresh = FetchEvent::Tick { shown: true, age_nanos: DETAILS_TTL_NANOS };
    assert_eq!(fetch_step(s2, fresh, DETAILS_TTL_NANOS), (s2, false));
    let old = FetchEvent::Tick { shown: true, age_nanos: DETAILS_TTL_NANOS + 1 };
    assert_eq!(fetch_step(s2, old, DETAILS_TTL_NANOS), (Fetch { cached: true, pending: true }, true));
}
