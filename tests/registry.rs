use nvim_traveller::deferred::{DeferredQueue, EventEffect, LifecycleEvent};
use nvim_traveller::path::FsPath;
use nvim_traveller::state::{AppInstance, AppState, PopupHandle};

fn session(buf: u32) -> AppInstance {
    AppInstance::open(buf, 100 + buf, FsPath::parse("/d"), false, &vec![])
}

#[test]
fn insert_makes_active_and_remove_clears_it() {
    let mut state = AppState::init();
    assert_eq!(state.active_buf(), None);
    state.insert_instance(session(4));
    state.insert_instance(session(5));
    assert_eq!(state.active_buf(), Some(5));
    assert!(state.set_active_buf(4));
    assert!(!state.set_active_buf(9));
    assert_eq!(state.active_buf(), Some(4));
    let taken = state.take_active().unwrap();
    assert_eq!(taken.buf, 4);
    assert_eq!(state.active_buf(), None);
    state.insert_instance(taken);
    assert_eq!(state.active_buf(), Some(4));
    assert_eq!(state.instances.len(), 2);
}

#[test]
fn drain_applies_events_in_order() {
    let mut state = AppState::init();
    let mut with_popup = session(1);
    with_popup.set_selection_popup(PopupHandle { buf: 50, win: 51 });
    state.insert_instance(with_popup);
    state.insert_instance(session(2));
    let mut queue = DeferredQueue::new();
    queue.enqueue(LifecycleEvent::BufEnter(1));
    queue.enqueue(LifecycleEvent::BufWipeout(1));
    let effects = queue.drain(&mut state);
    assert!(queue.events.is_empty());
    assert_eq!(effects.len(), 2);
    assert!(matches!(effects[0], EventEffect::RefreshSummary(1)));
    match effects[1] {
        EventEffect::ClosePopup(p) => assert_eq!(p.win, 51),
        _ => panic!("expected the popup of the removed session to close"),
    }
    // the first event made buffer 1 active, the second removed it
    assert_eq!(state.active_buf(), None);
    assert_eq!(state.instances.len(), 1);
    assert_eq!(state.instances[0].buf, 2);
}

#[test]
fn drain_order_matters() {
    let mut state = AppState::init();
    state.insert_instance(session(1));
    state.insert_instance(session(2));
    let mut queue = DeferredQueue::new();
    queue.enqueue(LifecycleEvent::BufWipeout(1));
    queue.enqueue(LifecycleEvent::BufEnter(1));
    let effects = queue.drain(&mut state);
    assert!(matches!(effects[0], EventEffect::Nothing));
    assert!(matches!(effects[1], EventEffect::Nothing));
    assert_eq!(state.active_buf(), Some(2));
    assert_eq!(state.instances.len(), 1);
}

#[test]
fn events_for_unknown_buffers_change_nothing() {
    let mut state = AppState::init();
    state.insert_instance(session(1));
    assert!(matches!(state.apply_event(LifecycleEvent::BufEnter(9)), EventEffect::Nothing));
    assert!(matches!(state.apply_event(LifecycleEvent::BufWipeout(9)), EventEffect::Nothing));
    assert_eq!(state.active_buf(), Some(1));
    assert_eq!(state.instances.len(), 1);
}

#[test]
fn open_navigation_registers_active_session() {
    let mut state = AppState::init();
    state.open_navigation(
        7,
        70,
        FsPath::parse("/p/src/main.rs"),
        true,
        &vec![nvim_traveller::listing::EntryInfo { name: "main.rs".to_string(), is_dir: false }],
    );
    assert_eq!(state.active_buf(), Some(7));
    let i = state.find_session(7).unwrap();
    assert_eq!(state.instances[i].cwd.to_text(), "/p/src");
    assert_eq!(state.instances[i].buf_content, vec!["main.rs"]);
    // a second session for the same buffer replaces the first
    state.open_navigation(7, 70, FsPath::parse("/q"), false, &vec![]);
    assert_eq!(state.instances.len(), 1);
    assert_eq!(state.instances[0].cwd.to_text(), "/q");
}
