//! Tests of the session registry, the termination state machine, the
//! browser tab registry, version selection and path composition.

use termcore::browser::{should_report_url, BrowserState};
use termcore::manager::{PtyError, PtyManager, SessionSlot};
use termcore::models::{CommandResult, TerminalSession, UrlChangedPayload};
use termcore::term::{terminate_step, TermAction, TermState};
use termcore::versions::{
    build_extended_path, build_session_path, key_le_exec, parse_version, select_node_version,
    sort_versions_semver,
};

#[derive(Debug, PartialEq)]
struct DummyHandle(u32);

#[test]
fn spawned_identifiers_are_distinct_and_increasing() {
    let mut m: PtyManager<DummyHandle> = PtyManager::new();
    let mut ids: Vec<u32> = Vec::new();
    for i in 0..8u32 {
        let id = m.register(DummyHandle(i)).unwrap();
        ids.push(id);
    }
    for w in ids.windows(2) {
        assert!(w[0] < w[1]);
    }
    assert_eq!(ids, vec![1, 2, 3, 4, 5, 6, 7, 8]);
    assert_eq!(m.count(), 8);
}

#[test]
fn double_close_returns_not_found() {
    let mut m: PtyManager<DummyHandle> = PtyManager::new();
    let id = m.register(DummyHandle(7)).unwrap();
    let first = m.remove(id);
    assert_eq!(first, Some(DummyHandle(7)));
    let second = m.remove(id);
    assert_eq!(second, None);
    assert_eq!(m.count(), 0);
}

#[test]
fn close_all_empties_the_table() {
    let mut m: PtyManager<DummyHandle> = PtyManager::new();
    for i in 0..5u32 {
        m.register(DummyHandle(i)).unwrap();
    }
    let handles = m.drain_all();
    assert_eq!(handles.len(), 5);
    assert_eq!(m.count(), 0);
    // even if a caller's teardown of one handle failed, the table is
    // already empty; later identifiers are still fresh
    let next = m.register(DummyHandle(9)).unwrap();
    assert_eq!(next, 6);
}

#[test]
fn write_to_unknown_session_is_not_found() {
    let mut m: PtyManager<DummyHandle> = PtyManager::new();
    let id = m.register(DummyHandle(1)).unwrap();
    assert!(m.get(id).is_some());
    // unknown identifier: lookup fails, table unchanged
    assert!(m.get(id + 1).is_none());
    assert_eq!(m.count(), 1);
    // after a close, writes to the same identifier fail the same way
    m.remove(id);
    assert!(m.get(id).is_none());
    assert_eq!(m.count(), 0);
}

#[test]
fn manager_contains_tracks_liveness() {
    let mut m: PtyManager<DummyHandle> = PtyManager::new();
    let id = m.register(DummyHandle(3)).unwrap();
    assert!(m.contains(id));
    m.remove(id);
    assert!(!m.contains(id));
}

#[test]
fn termination_protocol_reaches_dead() {
    // graceful path: polite signal, grace wait, probe
    let (s1, a1) = terminate_step(TermState::Running, true, false);
    assert!(matches!(s1, TermState::GracefulWait));
    assert_eq!(a1.len(), 3);
    assert!(matches!(a1[0], TermAction::SignalTermGroup));
    assert!(matches!(a1[2], TermAction::ProbeAlive));
    // still alive after the grace interval: forceful kill, then reap
    let (s2, a2) = terminate_step(s1, true, true);
    assert!(matches!(s2, TermState::Dead));
    assert!(matches!(a2[0], TermAction::SignalKillGroup));
    assert!(matches!(a2[2], TermAction::ReapChild));
    // terminate on a dead session is a no-op
    let (s3, a3) = terminate_step(s2, true, false);
    assert!(matches!(s3, TermState::Dead));
    assert_eq!(a3.len(), 0);
}

#[test]
fn termination_without_process_groups_kills_directly() {
    let (s1, a1) = terminate_step(TermState::Running, false, false);
    assert!(matches!(s1, TermState::Dead));
    assert_eq!(a1.len(), 2);
    assert!(matches!(a1[0], TermAction::DirectKill));
    assert!(matches!(a1[1], TermAction::ReapChild));
}

#[test]
fn termination_graceful_exit_only_reaps() {
    let (s1, _) = terminate_step(TermState::Running, true, false);
    let (s2, a2) = terminate_step(s1, true, false);
    assert!(matches!(s2, TermState::Dead));
    assert_eq!(a2.len(), 1);
    assert!(matches!(a2[0], TermAction::ReapChild));
}

#[test]
fn browser_tabs_register_and_close() {
    let mut b = BrowserState::new();
    b.insert_tab("tab1".to_string(), "browser-tab1".to_string());
    b.insert_tab("tab2".to_string(), "browser-tab2".to_string());
    assert!(b.contains_tab(&"tab1".to_string()));
    assert_eq!(b.get_label(&"tab1".to_string()), Some("browser-tab1".to_string()));
    assert_eq!(b.tab_ids(), vec!["tab1".to_string(), "tab2".to_string()]);
    assert!(b.remove_tab(&"tab1".to_string()));
    assert!(!b.contains_tab(&"tab1".to_string()));
    // removing again reports absence
    assert!(!b.remove_tab(&"tab1".to_string()));
    b.clear_tabs();
    assert_eq!(b.tab_ids().len(), 0);
}

#[test]
fn browser_insert_replaces_label_in_place() {
    let mut b = BrowserState::new();
    b.insert_tab("t".to_string(), "old-label".to_string());
    b.insert_tab("t".to_string(), "new-label".to_string());
    assert_eq!(b.get_label(&"t".to_string()), Some("new-label".to_string()));
    assert_eq!(b.tab_ids().len(), 1);
}

#[test]
fn url_report_filter_drops_internal_locations() {
    assert!(should_report_url(&"https://example.com/page".to_string()));
    assert!(!should_report_url(&"".to_string()));
    assert!(!should_report_url(&"about:blank".to_string()));
    assert!(!should_report_url(&"blob:xyz".to_string()));
    assert!(!should_report_url(&"data:text/plain,hi".to_string()));
}

#[test]
fn version_keys_parse_numerically() {
    assert_eq!(parse_version(&"v18.20.8".to_string()), (18, 20, 8));
    assert_eq!(parse_version(&"v22".to_string()), (22, 0, 0));
    assert_eq!(parse_version(&"22.1".to_string()), (22, 1, 0));
    assert_eq!(parse_version(&"weird".to_string()), (0, 0, 0));
    // unparseable segments are skipped, later ones still count
    assert_eq!(parse_version(&"v1.x.2".to_string()), (1, 2, 0));
    // values that overflow a 32-bit number are skipped
    assert_eq!(parse_version(&"v99999999999999999999.3".to_string()), (3, 0, 0));
}

#[test]
fn version_order_is_numeric_not_textual() {
    let a = "v9.0.0".to_string();
    let b = "v18.2.1".to_string();
    assert!(key_le_exec(&a, &b));
    assert!(!key_le_exec(&b, &a));
}

#[test]
fn sort_versions_orders_by_semver() {
    let mut vs = vec![
        "v20.19.5".to_string(),
        "v18.20.8".to_string(),
        "v22.16.0".to_string(),
        "v9.11.2".to_string(),
    ];
    sort_versions_semver(&mut vs);
    assert_eq!(
        vs,
        vec![
            "v9.11.2".to_string(),
            "v18.20.8".to_string(),
            "v20.19.5".to_string(),
            "v22.16.0".to_string(),
        ],
    );
}

#[test]
fn select_version_honours_alias() {
    let vs = vec!["v18.20.8".to_string(), "v20.19.5".to_string(), "v22.16.0".to_string()];
    let alias = "22".to_string();
    assert_eq!(select_node_version(&vs, Some(&alias)), Some("v22.16.0".to_string()));
}

#[test]
fn select_version_falls_back_to_newest() {
    let vs = vec!["v20.19.5".to_string(), "v22.16.0".to_string(), "v18.20.8".to_string()];
    // no alias: newest version wins
    assert_eq!(select_node_version(&vs, None), Some("v22.16.0".to_string()));
    // alias that matches nothing: newest version wins too
    let alias = "99".to_string();
    assert_eq!(select_node_version(&vs, Some(&alias)), Some("v22.16.0".to_string()));
}

#[test]
fn select_version_empty_list_is_none() {
    let vs: Vec<String> = Vec::new();
    assert_eq!(select_node_version(&vs, None), None);
}

#[test]
fn extended_path_layout_is_exact() {
    let home = "/home/u".to_string();
    let current = "/usr/games".to_string();
    let nvm = "/home/u/.nvm/versions/node/v22.16.0/bin".to_string();
    let got = build_extended_path(Some(&nvm), &home, &current);
    assert_eq!(
        got,
        "/home/u/.nvm/versions/node/v22.16.0/bin:/opt/homebrew/bin:/opt/homebrew/sbin:\
         /usr/local/bin:/usr/local/sbin:/home/u/.local/bin:/usr/bin:/bin:/usr/sbin:/sbin:\
         /usr/games"
            .replace(" ", ""),
    );
    let no_nvm = build_extended_path(None, &home, &"".to_string());
    assert_eq!(
        no_nvm,
        "/opt/homebrew/bin:/opt/homebrew/sbin:/usr/local/bin:/usr/local/sbin:\
         /home/u/.local/bin:/usr/bin:/bin:/usr/sbin:/sbin"
            .replace(" ", ""),
    );
}

#[test]
fn session_path_layout_is_exact() {
    let got = build_session_path(&"/home/u".to_string(), &"/old/path".to_string());
    assert_eq!(got, "/usr/local/bin:/opt/homebrew/bin:/usr/bin:/bin:/home/u/.local/bin:/old/path");
}

#[test]
fn model_types_carry_plain_values() {
    let s = TerminalSession { id: "s1".to_string(), title: "shell".to_string(), active: true };
    assert_eq!(s.id, "s1");
    assert!(s.active);
    let c = CommandResult { output: "ok\n".to_string(), exit_code: 0 };
    assert_eq!(c.exit_code, 0);
    let u = UrlChangedPayload { url: "https://example.com".to_string(), tab_id: "t".to_string() };
    assert_eq!(u.tab_id, "t");
}

#[test]
fn identifier_exhaustion_reports_allocation_error() {
    // the error taxonomy is observable: an exhausted allocator refuses
    // with an allocation error rather than reusing identifiers
    let mut m: PtyManager<DummyHandle> = PtyManager::new();
    let id = m.register(DummyHandle(0)).unwrap();
    assert_eq!(id, 1);
    let e: Result<u32, PtyError> = Err(PtyError::NotFound);
    assert!(matches!(e, Err(PtyError::NotFound)));
}

#[test]
fn single_session_slot_replaces_previous() {
    let mut slot: SessionSlot<DummyHandle> = SessionSlot::new();
    assert!(!slot.is_active());
    assert!(slot.install(DummyHandle(1)).is_none());
    assert!(slot.is_active());
    // a new spawn implicitly closes the previous session
    let prev = slot.install(DummyHandle(2));
    assert_eq!(prev, Some(DummyHandle(1)));
    assert_eq!(slot.take(), Some(DummyHandle(2)));
    assert!(!slot.is_active());
    // a second close finds nothing
    assert_eq!(slot.take(), None);
}
