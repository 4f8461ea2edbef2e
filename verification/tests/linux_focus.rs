use url_focus::linux_focus::{
    dedupe_focus_candidates, next_focus_step, normalize_focus_candidate, normalize_focus_tokens,
    select_focus_target, title_matches_focus_candidate, window_focus_match_score, FocusStep,
    NiriFocusTimestamp, NiriWindowInfo, FOCUS_ATTEMPTS,
};

#[test]
fn linux_focus_normalizes_focus_candidates_from_paths() {
    assert_eq!(normalize_focus_candidate("/usr/bin/code"), "code");
    assert_eq!(normalize_focus_candidate("Firefox"), "firefox");
    assert_eq!(
        normalize_focus_candidate("code-url-handler.desktop"),
        "code-url-handler"
    );
}

#[test]
fn linux_focus_dedupes_focus_candidates_after_normalization() {
    assert_eq!(
        dedupe_focus_candidates(vec![
            "Firefox".to_string(),
            "/usr/lib/firefox/firefox".to_string(),
            "firefox.desktop".to_string(),
        ]),
        vec!["firefox".to_string()]
    );
}

#[test]
fn linux_focus_tokenizes_focus_titles_and_candidates() {
    assert_eq!(
        normalize_focus_tokens("Example Domain — Mozilla Firefox"),
        vec!["example", "domain", "mozilla", "firefox"]
    );
    assert_eq!(
        normalize_focus_tokens("microsoft-edge.desktop"),
        vec!["microsoft", "edge", "desktop"]
    );
}

#[test]
fn linux_focus_matches_titles_by_tokens_without_false_positive_substrings() {
    assert!(title_matches_focus_candidate(
        "Example Domain — Mozilla Firefox",
        "firefox"
    ));
    assert!(title_matches_focus_candidate(
        "WncFht - Microsoft Edge",
        "microsoft-edge"
    ));
    assert!(!title_matches_focus_candidate("Codex Monitor", "code"));
}

#[test]
fn normalization_edge_cases() {
    assert_eq!(normalize_focus_candidate("   "), "");
    assert_eq!(normalize_focus_candidate("/usr/lib/Code.Desktop/"), "code");
    assert_eq!(normalize_focus_candidate(".bashrc"), ".bashrc");
    assert_eq!(normalize_focus_candidate("archive.tar.gz"), "archive.tar");
    assert_eq!(normalize_focus_candidate("dir/.."), "dir/..");
    assert_eq!(normalize_focus_candidate("/"), "/");
    assert_eq!(normalize_focus_candidate("a/b/."), "b");
    assert_eq!(normalize_focus_candidate("My App .desktop"), "my app");
}

#[test]
fn dedupe_keeps_first_occurrences_in_order_and_drops_blanks() {
    let out = dedupe_focus_candidates(vec![
        "Code".to_string(),
        "  ".to_string(),
        "firefox".to_string(),
        "/usr/bin/code".to_string(),
        "Firefox.desktop".to_string(),
        "edge".to_string(),
    ]);
    assert_eq!(out, vec!["code", "firefox", "edge"]);
    let mut sorted = out.clone();
    sorted.sort();
    sorted.dedup();
    assert_eq!(sorted.len(), out.len());
}

#[test]
fn tokens_are_maximal_lowercase_runs() {
    assert_eq!(normalize_focus_tokens("--A1b2__C3--"), vec!["a1b2", "c3"]);
    assert!(normalize_focus_tokens("— ‒ !").is_empty());
    assert_eq!(normalize_focus_tokens("x"), vec!["x"]);
}

#[test]
fn title_matching_is_reflexive_and_transitive() {
    assert!(title_matches_focus_candidate("Mozilla Firefox", "Mozilla Firefox"));
    assert!(!title_matches_focus_candidate("--", "--"));
    assert!(title_matches_focus_candidate("Editor - Microsoft Edge Beta", "microsoft-edge"));
    assert!(title_matches_focus_candidate("microsoft-edge", "edge"));
    assert!(title_matches_focus_candidate("Editor - Microsoft Edge Beta", "edge"));
    assert!(!title_matches_focus_candidate("", "edge"));
    assert!(!title_matches_focus_candidate("edge", ""));
}

fn window(id: u64, app_id: Option<&str>, title: Option<&str>, focus: Option<(u64, u32)>) -> NiriWindowInfo {
    NiriWindowInfo {
        id,
        app_id: app_id.map(|s| s.to_string()),
        title: title.map(|s| s.to_string()),
        focus_timestamp: focus.map(|(secs, nanos)| NiriFocusTimestamp { secs, nanos }),
    }
}

#[test]
fn window_scores_prefer_app_ids_over_titles() {
    let candidates = vec!["firefox".to_string(), "code".to_string()];
    assert_eq!(
        window_focus_match_score(&window(1, Some("Firefox"), None, None), &candidates),
        Some(2)
    );
    assert_eq!(
        window_focus_match_score(&window(2, Some("org.mozilla.x"), Some("Mozilla Firefox"), None), &candidates),
        Some(1)
    );
    assert_eq!(
        window_focus_match_score(&window(3, None, Some("Mozilla Firefox"), None), &candidates),
        None
    );
    assert_eq!(
        window_focus_match_score(&window(4, Some("  "), Some("Firefox"), None), &candidates),
        None
    );
    assert_eq!(
        window_focus_match_score(&window(5, Some("term"), None, None), &candidates),
        None
    );
}

#[test]
fn target_is_the_highest_ranked_matching_window() {
    let candidates = vec!["firefox".to_string()];
    let windows = vec![
        window(10, Some("kitty"), Some("Firefox notes"), Some((500, 0))),
        window(11, Some("firefox"), Some("Home"), Some((100, 5))),
        window(12, Some("firefox"), Some("Docs"), Some((100, 7))),
        window(13, Some("term"), Some("shell"), Some((900, 0))),
    ];
    assert_eq!(select_focus_target(&windows, &candidates), Some(12));
    let only_titles = vec![
        window(20, Some("kitty"), Some("Firefox notes"), None),
        window(21, Some("alacritty"), Some("firefox"), None),
    ];
    assert_eq!(select_focus_target(&only_titles, &candidates), Some(21));
    assert_eq!(select_focus_target(&vec![window(30, Some("term"), None, None)], &candidates), None);
    assert_eq!(select_focus_target(&vec![], &candidates), None);
}

#[test]
fn focus_attempts_stop_on_success_or_after_the_limit() {
    assert_eq!(FOCUS_ATTEMPTS, 12);
    assert_eq!(next_focus_step(1, true), FocusStep::Finish);
    assert_eq!(next_focus_step(1, false), FocusStep::SleepThenRetry);
    assert_eq!(next_focus_step(11, false), FocusStep::SleepThenRetry);
    assert_eq!(next_focus_step(12, false), FocusStep::SleepThenFinish);
    assert_eq!(next_focus_step(12, true), FocusStep::Finish);
}

#[test]
fn normalization_ignores_ascii_case_and_keeps_plain_names() {
    for candidate in ["/usr/bin/Code", "Firefox.Desktop", "  My-App_2.tar.GZ "] {
        let normalized = normalize_focus_candidate(candidate);
        assert_eq!(normalize_focus_candidate(&candidate.to_ascii_uppercase()), normalized);
        assert_eq!(normalize_focus_candidate(&candidate.to_ascii_lowercase()), normalized);
    }
    assert_eq!(normalize_focus_candidate("Code_Insiders"), "code_insiders");
    assert_eq!(normalize_focus_candidate(" x y /opt/Code_Insiders"), "code_insiders");
    assert_eq!(normalize_focus_candidate("/opt/Code-Insiders.bin"), "code-insiders");
}

#[test]
fn tokens_concatenate_across_separators() {
    let joined = normalize_focus_tokens("Mozilla Firefox—Private-Browsing");
    let mut expected = normalize_focus_tokens("Mozilla Firefox");
    expected.extend(normalize_focus_tokens("Private-Browsing"));
    assert_eq!(joined, expected);
    assert_eq!(normalize_focus_tokens("MOZILLA firefox"), normalize_focus_tokens("mozilla FIREFOX"));
}

#[test]
fn title_matches_survive_extra_words_and_case() {
    assert!(title_matches_focus_candidate("Docs — Mozilla Firefox Nightly", "firefox"));
    assert!(title_matches_focus_candidate("Nightly Docs Mozilla Firefox", "firefox"));
    assert!(title_matches_focus_candidate("MOZILLA FIREFOX", "Firefox"));
    assert!(title_matches_focus_candidate("firefox", "firefox"));
}
