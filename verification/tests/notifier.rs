use github_notifier::codec::{load_state, parse_state, save_state};
use github_notifier::cycle::{run_cycle, process_repo, CycleEvent, Notification};
use github_notifier::notify::{build_message, notification_params, send_message_url};
use github_notifier::release::{releases_url, FetchError, Release};
use github_notifier::search::is_important;
use github_notifier::state::NotificationState;

fn release(id: u32, prerelease: bool, draft: bool) -> Release {
    Release {
        id,
        html_url: format!("https://example.com/r/{id}"),
        name: format!("v{id}"),
        prerelease,
        draft,
        body: format!("notes for {id}"),
        published_at: "2024-01-02T03:04:05Z".to_string(),
    }
}

#[test]
fn selects_maximum_eligible_id() {
    let releases = vec![release(3, false, false), release(5, false, false), release(7, false, false)];
    let picked = Release::select_latest(&releases).unwrap();
    assert_eq!(picked.id, 7);
    assert_eq!(picked.name, "v7");
}

#[test]
fn selects_maximum_even_when_listed_first() {
    let releases = vec![release(9, false, false), release(2, false, false), release(4, false, false)];
    let picked = Release::select_latest(&releases).unwrap();
    assert_eq!(picked.id, 9);
}

#[test]
fn skips_prereleases_and_drafts() {
    let releases = vec![
        release(10, true, false),
        release(7, false, false),
        release(9, false, true),
        release(5, false, false),
    ];
    let picked = Release::select_latest(&releases).unwrap();
    assert_eq!(picked.id, 7);
}

#[test]
fn ties_go_to_the_last_listed() {
    let mut a = release(7, false, false);
    a.name = "first seven".to_string();
    let mut b = release(7, false, false);
    b.name = "second seven".to_string();
    let releases = vec![a, b];
    let picked = Release::select_latest(&releases).unwrap();
    assert_eq!(picked.name, "second seven");
}

#[test]
fn only_ineligible_entries_is_no_releases_found() {
    let releases = vec![release(3, true, false), release(4, false, true)];
    assert!(matches!(Release::select_latest(&releases), Err(FetchError::NoReleasesFound)));
}

#[test]
fn empty_listing_is_no_releases_found() {
    let releases: Vec<Release> = Vec::new();
    assert!(matches!(Release::select_latest(&releases), Err(FetchError::NoReleasesFound)));
}

#[test]
fn empty_pattern_never_flags() {
    assert!(!is_important("", "anything at all"));
}

#[test]
fn pattern_flags_matching_body_only() {
    assert!(is_important("secur.ty", "a security fix"));
    assert!(!is_important("secur.ty", "a feature release"));
}

#[test]
fn invalid_pattern_never_flags() {
    assert!(!is_important("(unclosed", "(unclosed"));
}

#[test]
fn new_id_is_notified_and_recorded() {
    let mut state = NotificationState::new();
    let repo = "foo/bar".to_string();
    state.record(&repo, 5);
    let events = vec![CycleEvent { repo: repo.clone(), outcome: Ok(release(7, false, false)) }];
    let notes = run_cycle(&mut state, &events, "");
    assert_eq!(notes.len(), 1);
    assert_eq!(notes[0].repo, "foo/bar");
    assert_eq!(notes[0].release.id, 7);
    assert!(!notes[0].important);
    assert_eq!(state.get(&repo), 7);
}

#[test]
fn unchanged_id_is_not_notified() {
    let mut state = NotificationState::new();
    let repo = "foo/bar".to_string();
    state.record(&repo, 7);
    let before = save_state(&state);
    let events = vec![CycleEvent { repo: repo.clone(), outcome: Ok(release(7, false, false)) }];
    let notes = run_cycle(&mut state, &events, "");
    assert_eq!(notes.len(), 0);
    assert_eq!(save_state(&state), before);
}

#[test]
fn failed_fetch_changes_nothing_and_cycle_continues() {
    let mut state = NotificationState::new();
    let broken = "foo/bar".to_string();
    let healthy = "baz/qux".to_string();
    state.record(&broken, 5);
    let before = state.get(&broken);
    let events = vec![
        CycleEvent { repo: broken.clone(), outcome: Err(FetchError::NoReleasesFound) },
        CycleEvent { repo: healthy.clone(), outcome: Ok(release(2, false, false)) },
    ];
    let notes = run_cycle(&mut state, &events, "");
    assert_eq!(state.get(&broken), before);
    assert_eq!(notes.len(), 1);
    assert_eq!(notes[0].repo, "baz/qux");
    assert_eq!(state.get(&healthy), 2);
}

#[test]
fn second_cycle_sends_nothing() {
    let mut state = NotificationState::new();
    let events = vec![
        CycleEvent { repo: "a/a".to_string(), outcome: Ok(release(4, false, false)) },
        CycleEvent { repo: "b/b".to_string(), outcome: Err(FetchError::TransportError) },
        CycleEvent { repo: "c/c".to_string(), outcome: Ok(release(9, false, false)) },
    ];
    let first: Vec<Notification> = run_cycle(&mut state, &events, "x");
    assert_eq!(first.len(), 2);
    let after_first = save_state(&state);
    let second = run_cycle(&mut state, &events, "x");
    assert_eq!(second.len(), 0);
    assert_eq!(save_state(&state), after_first);
}

#[test]
fn older_id_counts_as_new() {
    let mut state = NotificationState::new();
    let repo = "foo/bar".to_string();
    state.record(&repo, 9);
    let note = process_repo(&mut state, &CycleEvent { repo: repo.clone(), outcome: Ok(release(3, false, false)) }, "");
    assert!(note.is_some());
    assert_eq!(state.get(&repo), 3);
}

#[test]
fn cycle_flags_important_releases() {
    let mut state = NotificationState::new();
    let mut rel = release(1, false, false);
    rel.body = "contains a security fix".to_string();
    let events = vec![CycleEvent { repo: "foo/bar".to_string(), outcome: Ok(rel) }];
    let notes = run_cycle(&mut state, &events, "security");
    assert_eq!(notes.len(), 1);
    assert!(notes[0].important);
}

#[test]
fn empty_state_round_trips() {
    let state = NotificationState::new();
    let text = save_state(&state);
    assert_eq!(text, "{\"sent_releases\":{}}");
    let back = parse_state(&text).unwrap();
    assert_eq!(save_state(&back), text);
    assert_eq!(back.len(), 0);
}

#[test]
fn populated_state_round_trips() {
    let mut state = NotificationState::new();
    state.record(&"foo/bar".to_string(), 5);
    state.record(&"baz/qux".to_string(), 0);
    state.record(&"owner/name".to_string(), 4294967295);
    let text = save_state(&state);
    assert_eq!(
        text,
        "{\"sent_releases\":{\"foo/bar\":5,\"baz/qux\":0,\"owner/name\":4294967295}}"
    );
    let back = parse_state(&text).unwrap();
    assert_eq!(back.get(&"foo/bar".to_string()), 5);
    assert_eq!(back.get(&"baz/qux".to_string()), 0);
    assert_eq!(back.get(&"owner/name".to_string()), 4294967295);
    assert_eq!(back.len(), 3);
    assert_eq!(save_state(&back), text);
}

#[test]
fn rewriting_a_key_keeps_one_entry() {
    let mut state = NotificationState::new();
    let repo = "foo/bar".to_string();
    state.record(&repo, 1);
    state.record(&repo, 2);
    assert_eq!(state.len(), 1);
    assert_eq!(state.get(&repo), 2);
    assert_eq!(save_state(&state), "{\"sent_releases\":{\"foo/bar\":2}}");
}

#[test]
fn absent_snapshot_loads_empty() {
    let state = load_state(None).unwrap();
    assert_eq!(state.len(), 0);
    assert_eq!(save_state(&state), "{\"sent_releases\":{}}");
}

#[test]
fn mangled_snapshot_is_refused() {
    assert!(parse_state("{\"sent_releases\":{\"foo/bar\":}}").is_none());
    assert!(parse_state("not a snapshot").is_none());
    assert!(parse_state("{\"sent_releases\":{\"foo/bar\":01}}").is_none());
    assert!(parse_state("{\"sent_releases\":{\"a\":1,\"a\":2}}").is_none());
    assert!(parse_state("{\"sent_releases\": {}}").is_none());
}

#[test]
fn message_carries_all_fields() {
    let rel = Release {
        id: 7,
        html_url: "https://example.com/r/7".to_string(),
        name: "v7".to_string(),
        prerelease: false,
        draft: false,
        body: "hello".to_string(),
        published_at: "2024-01-02".to_string(),
    };
    let text = build_message(&"foo/bar".to_string(), &rel, false);
    assert_eq!(
        text,
        "\u{1f9a6}New release <a href=\"https://example.com/r/7\">v7</a> in <b>foo/bar</b> at \
         2024-01-02\n\n<pre><code class=\"language-markdown\">hello</code></pre>"
    );
    let important = build_message(&"foo/bar".to_string(), &rel, true);
    assert!(important.starts_with('\u{1f405}'));
}

#[test]
fn message_truncates_long_bodies() {
    let mut rel = release(1, false, false);
    rel.body = "x".repeat(4000);
    let text = build_message(&"foo/bar".to_string(), &rel, false);
    let start = text.find("language-markdown\">").unwrap() + "language-markdown\">".len();
    let end = text.find("</code></pre>").unwrap();
    assert_eq!(end - start, 3900);
}

#[test]
fn params_carry_the_four_fields() {
    let params = notification_params(&"12345".to_string(), "hi".to_string(), true);
    assert_eq!(params.len(), 4);
    assert_eq!(params[0], ("chat_id".to_string(), "12345".to_string()));
    assert_eq!(params[1], ("text".to_string(), "hi".to_string()));
    assert_eq!(params[2], ("parse_mode".to_string(), "HTML".to_string()));
    assert_eq!(params[3], ("disable_notification".to_string(), "false".to_string()));
    let silent = notification_params(&"12345".to_string(), "hi".to_string(), false);
    assert_eq!(silent[3], ("disable_notification".to_string(), "true".to_string()));
}

#[test]
fn endpoints_are_built_from_their_parts() {
    assert_eq!(
        releases_url(&"foo/bar".to_string()),
        "https://api.github.com/repos/foo/bar/releases"
    );
    assert_eq!(
        send_message_url(&"42:token".to_string()),
        "https://api.telegram.org/bot42:token/sendMessage"
    );
}
