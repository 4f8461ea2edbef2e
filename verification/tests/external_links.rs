use url_focus::external_links::{
    assemble_focus_candidates, choose_linux_opener, command_failure_message,
    dedupe_focus_candidates, default_handler_from_output, default_handler_name,
    derive_focus_candidates_from_desktop_id, desktop_entry_search_dirs, desktop_entry_value,
    ensure_success, exec_program_from_tokens, extract_exec_program, extract_url_scheme,
    desktop_entry_path_list, find_desktop_entry_path, first_existing_path,
    normalize_focus_candidate, normalize_focus_tokens,
    resolve_focus_candidates, sanitize_external_url, scheme_handler_mime_type,
    title_matches_focus_candidate, LinuxOpener,
};

#[test]
fn extracts_url_scheme() {
    assert_eq!(extract_url_scheme("https://example.com"), Some("https"));
    assert_eq!(
        extract_url_scheme("vscode://file/tmp/example.ts"),
        Some("vscode")
    );
    assert_eq!(extract_url_scheme(""), None);
}

#[test]
fn derives_focus_candidates_from_desktop_url_handlers() {
    assert_eq!(
        derive_focus_candidates_from_desktop_id("code-url-handler.desktop"),
        vec!["code-url-handler".to_string(), "code".to_string()]
    );
    assert_eq!(
        derive_focus_candidates_from_desktop_id("firefox.desktop"),
        vec!["firefox".to_string()]
    );
}

#[test]
fn extracts_exec_program_from_desktop_entry_exec() {
    assert_eq!(
        extract_exec_program("/usr/lib/firefox/firefox %u"),
        Some("/usr/lib/firefox/firefox".to_string())
    );
    assert_eq!(
        extract_exec_program("/usr/bin/code --open-url %U"),
        Some("/usr/bin/code".to_string())
    );
    assert_eq!(
        extract_exec_program("env BAMF_DESKTOP_FILE_HINT=/usr/share/applications/code.desktop /usr/bin/code --open-url %U"),
        Some("/usr/bin/code".to_string())
    );
}

#[test]
fn external_links_normalizes_focus_candidates_from_paths() {
    assert_eq!(normalize_focus_candidate("/usr/bin/code"), "code");
    assert_eq!(normalize_focus_candidate("Firefox"), "firefox");
    assert_eq!(
        normalize_focus_candidate("code-url-handler.desktop"),
        "code-url-handler"
    );
}

#[test]
fn external_links_dedupes_focus_candidates_after_normalization() {
    assert_eq!(
        dedupe_focus_candidates(vec![
            "Firefox".to_string(),
            "/usr/lib/firefox/firefox".to_string(),
            "firefox.desktop".to_string(),
        ]),
        vec!["firefox".to_string()]
    );
}

#[test]
fn external_links_tokenizes_focus_titles_and_candidates() {
    assert_eq!(
        normalize_focus_tokens("Example Domain — Mozilla Firefox"),
        vec!["example", "domain", "mozilla", "firefox"]
    );
    assert_eq!(
        normalize_focus_tokens("microsoft-edge.desktop"),
        vec!["microsoft", "edge", "desktop"]
    );
}

#[test]
fn external_links_matches_titles_by_tokens_without_false_positive_substrings() {
    assert!(title_matches_focus_candidate(
        "Example Domain — Mozilla Firefox",
        "firefox"
    ));
    assert!(title_matches_focus_candidate(
        "WncFht - Microsoft Edge",
        "microsoft-edge"
    ));
    assert!(!title_matches_focus_candidate("Codex Monitor", "code"));
}

#[test]
fn sanitize_trims_and_accepts_plain_urls() {
    assert_eq!(
        sanitize_external_url("  https://example.com/a b \t".to_string()),
        Ok("https://example.com/a b".to_string())
    );
}

#[test]
fn sanitize_rejects_blank_urls() {
    assert_eq!(
        sanitize_external_url("   \n ".to_string()),
        Err("Missing URL.".to_string())
    );
    assert_eq!(
        sanitize_external_url(String::new()),
        Err("Missing URL.".to_string())
    );
}

#[test]
fn sanitize_rejects_control_characters() {
    for url in ["https://a\nb", "https://a\rb", "https://a\0b"] {
        assert_eq!(
            sanitize_external_url(url.to_string()),
            Err("URL contains unsupported control characters.".to_string())
        );
    }
}

#[test]
fn sanitize_is_idempotent_on_accepted_urls() {
    let once = sanitize_external_url("  mailto:someone@example.com  ".to_string()).unwrap();
    assert_eq!(sanitize_external_url(once.clone()), Ok(once));
}

#[test]
fn url_scheme_is_trimmed_and_needs_a_colon() {
    assert_eq!(extract_url_scheme("  mailto :x"), Some("mailto"));
    assert_eq!(extract_url_scheme("no-scheme-here"), None);
    assert_eq!(extract_url_scheme("   :path"), None);
    assert_eq!(extract_url_scheme("a:b:c"), Some("a"));
}

#[test]
fn desktop_id_candidates_handle_blank_and_paths() {
    assert!(derive_focus_candidates_from_desktop_id("   ").is_empty());
    assert_eq!(
        derive_focus_candidates_from_desktop_id(" /usr/share/applications/org.gnome.Web.desktop "),
        vec!["org.gnome.Web".to_string()]
    );
    assert_eq!(
        derive_focus_candidates_from_desktop_id("-url-handler"),
        vec!["-url-handler".to_string(), "".to_string()]
    );
}

#[test]
fn exec_program_keeps_quoted_words_whole() {
    assert_eq!(
        extract_exec_program("'/opt/My App/bin/app' --new-window %u"),
        Some("/opt/My App/bin/app".to_string())
    );
    assert_eq!(extract_exec_program("\"unterminated"), None);
    assert_eq!(extract_exec_program(""), None);
    assert_eq!(extract_exec_program("/usr/bin/ENV A=1 B=2 prog -x"), Some("prog".to_string()));
    assert_eq!(extract_exec_program("/usr/bin/ENV A=1 B=2"), None);
    assert_eq!(extract_exec_program("/usr/bin/ENV"), None);
}

#[test]
fn exec_program_from_tokens_skips_env_assignments() {
    let tokens = vec![
        "ENV".to_string(),
        "A=1".to_string(),
        "/opt/x=y/bin".to_string(),
        "z".to_string(),
    ];
    assert_eq!(exec_program_from_tokens(tokens), Some("/opt/x=y/bin".to_string()));
    assert_eq!(
        exec_program_from_tokens(vec!["env".to_string(), "A=1".to_string()]),
        None
    );
    assert_eq!(exec_program_from_tokens(vec![]), None);
}

#[test]
fn desktop_entry_value_reads_only_the_desktop_entry_group() {
    let content = "# comment\nExec=wrong\n[Desktop Action new]\nExec=also-wrong\n\n[Desktop Entry]\r\n Name = Firefox \r\n# Exec=commented\nStartupWMClass = firefox \r\nExec=/usr/lib/firefox/firefox %u\n[Other]\nIcon=x\n";
    assert_eq!(
        desktop_entry_value(content, "Exec"),
        Some("/usr/lib/firefox/firefox %u".to_string())
    );
    assert_eq!(
        desktop_entry_value(content, "StartupWMClass"),
        Some("firefox".to_string())
    );
    assert_eq!(desktop_entry_value(content, "Name"), Some("Firefox".to_string()));
    assert_eq!(desktop_entry_value(content, "Icon"), None);
    assert_eq!(desktop_entry_value("", "Exec"), None);
}

#[test]
fn desktop_entry_value_takes_the_first_match_and_splits_at_the_first_equals() {
    let content = "[Desktop Entry]\nExec=a=b\nExec=second";
    assert_eq!(desktop_entry_value(content, "Exec"), Some("a=b".to_string()));
    let spaced = "[Desktop Entry]\nno equals sign\nKey =";
    assert_eq!(desktop_entry_value(spaced, "Key"), Some(String::new()));
}

#[test]
fn failure_messages_name_the_exit_and_stderr() {
    assert_eq!(
        command_failure_message("xdg-open", Some(4), "  no handler \n"),
        "xdg-open failed (exit code 4; stderr: no handler)."
    );
    assert_eq!(
        command_failure_message("open", Some(-2147483648), ""),
        "open failed (exit code -2147483648)."
    );
    assert_eq!(
        command_failure_message("cmd /C start", None, "   "),
        "cmd /C start failed (terminated by signal)."
    );
}

#[test]
fn ensure_success_decodes_stderr_lossily() {
    assert_eq!(ensure_success("xdg-open", true, Some(3), b"ignored"), Ok(()));
    assert_eq!(
        ensure_success("xdg-open", false, Some(1), b" bad \xff byte\n"),
        Err("xdg-open failed (exit code 1; stderr: bad \u{FFFD} byte).".to_string())
    );
    assert_eq!(
        ensure_success("gio", false, Some(0), b""),
        Err("gio failed (exit code 0).".to_string())
    );
}

#[test]
fn default_handler_comes_from_trimmed_output() {
    assert_eq!(
        default_handler_from_output(true, b"firefox.desktop\n"),
        Some("firefox.desktop".to_string())
    );
    assert_eq!(default_handler_from_output(true, b" \n"), None);
    assert_eq!(default_handler_from_output(false, b"firefox.desktop\n"), None);
    assert_eq!(
        default_handler_from_output(true, b"caf\xc3\xa9.desktop"),
        Some("caf\u{e9}.desktop".to_string())
    );
    assert_eq!(default_handler_name("  code.desktop "), Some("code.desktop".to_string()));
}

#[test]
fn scheme_query_names_the_handler_type() {
    assert_eq!(scheme_handler_mime_type("https"), "x-scheme-handler/https");
}

#[test]
fn opener_prefers_xdg_open_then_gio() {
    assert_eq!(choose_linux_opener(true, true), Ok(LinuxOpener::XdgOpen));
    assert_eq!(choose_linux_opener(false, true), Ok(LinuxOpener::GioOpen));
    assert_eq!(
        choose_linux_opener(false, false),
        Err("Neither `xdg-open` nor `gio open` is available.".to_string())
    );
}

#[test]
fn search_dirs_follow_xdg_variables() {
    assert_eq!(
        desktop_entry_search_dirs(Some("/data/home"), Some("/home/u"), Some("/a:/b/:")),
        vec![
            "/data/home/applications".to_string(),
            "/a/applications".to_string(),
            "/b/applications".to_string(),
            "applications".to_string(),
        ]
    );
    assert_eq!(
        desktop_entry_search_dirs(None, Some("/home/u"), None),
        vec![
            "/home/u/.local/share/applications".to_string(),
            "/usr/local/share/applications".to_string(),
            "/usr/share/applications".to_string(),
        ]
    );
    assert_eq!(
        desktop_entry_search_dirs(None, None, Some("/x")),
        vec!["/x/applications".to_string()]
    );
}

#[test]
fn desktop_entry_paths_join_each_directory() {
    let dirs = vec!["/home/u/.local/share/applications".to_string(), "/usr/share/applications/".to_string()];
    assert_eq!(
        desktop_entry_path_list("firefox.desktop", &dirs),
        vec![
            "/home/u/.local/share/applications/firefox.desktop".to_string(),
            "/usr/share/applications/firefox.desktop".to_string(),
        ]
    );
}

#[test]
fn the_first_existing_desktop_file_wins() {
    let dirs = vec!["/a".to_string(), "/b".to_string(), "/c".to_string()];
    assert_eq!(find_desktop_entry_path("x.desktop", &vec![], &vec![]), None);
    assert_eq!(
        find_desktop_entry_path("x.desktop", &dirs, &vec![false, true, true]),
        Some("/b/x.desktop".to_string())
    );
    assert_eq!(
        find_desktop_entry_path("x.desktop", &dirs, &vec![true, false, true]),
        Some("/a/x.desktop".to_string())
    );
    assert_eq!(find_desktop_entry_path("x.desktop", &dirs, &vec![false, false, false]), None);
    assert_eq!(
        first_existing_path(&vec!["p".to_string(), "q".to_string()], &vec![false, true]),
        Some("q".to_string())
    );
}

#[test]
fn focus_candidates_combine_id_window_class_and_program() {
    assert_eq!(
        assemble_focus_candidates(
            "code-url-handler.desktop",
            Some("Code".to_string()),
            Some("/usr/share/code/code".to_string())
        ),
        vec!["code-url-handler".to_string(), "code".to_string()]
    );
    let desktop_file = "[Desktop Entry]\nStartupWMClass=Firefox-Esr\nExec=env MOZ=1 /usr/lib/firefox-esr/firefox-esr %u\n";
    assert_eq!(
        resolve_focus_candidates("firefox-esr.desktop", Some(desktop_file)),
        vec!["firefox-esr".to_string()]
    );
    assert_eq!(
        resolve_focus_candidates("org.mozilla.firefox.desktop", Some("[Desktop Entry]\nStartupWMClass=firefox\n")),
        vec!["org.mozilla".to_string(), "firefox".to_string()]
    );
    assert_eq!(
        resolve_focus_candidates("browser.desktop", None),
        vec!["browser".to_string()]
    );
}
