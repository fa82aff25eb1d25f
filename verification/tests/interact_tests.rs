use dns_topology::interact::non_empty;
use dns_topology::interact::InputMode;
use dns_topology::interact::Key;
use dns_topology::interact::KeyInput;
use dns_topology::interact::KeyOutcome;
use dns_topology::interact::Session;
use dns_topology::util::truncate;

fn plain(key: Key) -> KeyInput {
    KeyInput { key, ctrl: false }
}

fn type_text(s: &mut Session, text: &str) {
    for c in text.chars() {
        assert_eq!(s.handle_key(plain(Key::Char(c))), KeyOutcome::Continue);
    }
}

#[test]
fn quit_keys_end_the_session() {
    let mut s = Session::new();
    assert_eq!(s.handle_key(plain(Key::Char('q'))), KeyOutcome::Quit);
    let mut s = Session::new();
    assert_eq!(s.handle_key(plain(Key::Esc)), KeyOutcome::Quit);
}

#[test]
fn tab_keys_switch_views() {
    let mut s = Session::new();
    assert_eq!(s.handle_key(plain(Key::Char('2'))), KeyOutcome::Continue);
    assert_eq!(s.tab, 1);
    s.handle_key(plain(Key::Char('1')));
    assert_eq!(s.tab, 0);
}

#[test]
fn pod_filter_entry_and_commit() {
    let mut s = Session::new();
    assert_eq!(s.handle_key(plain(Key::Char('/'))), KeyOutcome::Continue);
    assert_eq!(s.mode, InputMode::FilterPod);
    type_text(&mut s, "pod-a");
    assert_eq!(s.buffer, "pod-a");
    assert_eq!(s.handle_key(plain(Key::Enter)), KeyOutcome::Refilter);
    assert_eq!(s.mode, InputMode::Normal);
    assert_eq!(s.buffer, "");
    assert_eq!(s.filters.pod.as_deref(), Some("pod-a"));
}

#[test]
fn commit_trims_blank_space() {
    let mut s = Session::new();
    s.handle_key(plain(Key::Char('s')));
    assert_eq!(s.mode, InputMode::FilterService);
    type_text(&mut s, "  svc-api\t");
    s.handle_key(plain(Key::Enter));
    assert_eq!(s.filters.service.as_deref(), Some("svc-api"));
}

#[test]
fn empty_commit_clears_one_filter() {
    let mut s = Session::new();
    s.handle_key(plain(Key::Char('e')));
    type_text(&mut s, "stripe");
    s.handle_key(plain(Key::Enter));
    assert_eq!(s.filters.external.as_deref(), Some("stripe"));
    s.handle_key(plain(Key::Char('e')));
    assert_eq!(s.handle_key(plain(Key::Enter)), KeyOutcome::Refilter);
    assert_eq!(s.filters.external, None);
}

#[test]
fn cancel_discards_the_buffer() {
    let mut s = Session::new();
    s.handle_key(plain(Key::Char('/')));
    type_text(&mut s, "abc");
    assert_eq!(s.handle_key(plain(Key::Esc)), KeyOutcome::Continue);
    assert_eq!(s.mode, InputMode::Normal);
    assert_eq!(s.buffer, "");
    assert_eq!(s.filters.pod, None);
}

#[test]
fn backspace_edits_the_buffer() {
    let mut s = Session::new();
    s.handle_key(plain(Key::Char('/')));
    type_text(&mut s, "ab");
    s.handle_key(plain(Key::Backspace));
    assert_eq!(s.buffer, "a");
    s.handle_key(plain(Key::Backspace));
    s.handle_key(plain(Key::Backspace));
    assert_eq!(s.buffer, "");
}

#[test]
fn confirmed_clear_resets_all_filters() {
    let mut s = Session::new();
    s.handle_key(plain(Key::Char('/')));
    type_text(&mut s, "a");
    s.handle_key(plain(Key::Enter));
    s.handle_key(plain(Key::Char('s')));
    type_text(&mut s, "b");
    s.handle_key(plain(Key::Enter));
    assert_eq!(s.handle_key(KeyInput { key: Key::Char('c'), ctrl: true }), KeyOutcome::Continue);
    assert_eq!(s.mode, InputMode::ClearConfirm);
    assert_eq!(s.handle_key(plain(Key::Enter)), KeyOutcome::Refilter);
    assert_eq!(s.filters.pod, None);
    assert_eq!(s.filters.service, None);
    assert_eq!(s.filters.external, None);
}

#[test]
fn plain_c_does_not_open_clear_confirmation() {
    let mut s = Session::new();
    assert_eq!(s.handle_key(plain(Key::Char('c'))), KeyOutcome::Continue);
    assert_eq!(s.mode, InputMode::Normal);
}

#[test]
fn escape_cancels_clear_confirmation() {
    let mut s = Session::new();
    s.handle_key(plain(Key::Char('/')));
    type_text(&mut s, "keepme");
    s.handle_key(plain(Key::Enter));
    s.handle_key(KeyInput { key: Key::Char('c'), ctrl: true });
    assert_eq!(s.handle_key(plain(Key::Esc)), KeyOutcome::Continue);
    assert_eq!(s.filters.pod.as_deref(), Some("keepme"));
}

#[test]
fn non_empty_maps_blank_to_none() {
    assert_eq!(non_empty(""), None);
    assert_eq!(non_empty("x"), Some("x".to_string()));
}

#[test]
fn truncate_shortens_long_labels() {
    assert_eq!(truncate("short", 16), "short");
    assert_eq!(truncate("abcdef", 6), "abcdef");
    assert_eq!(truncate("abcdefg", 6), "abcdef…");
    assert_eq!(truncate("", 0), "");
}
