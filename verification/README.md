# url_focus

Verified logic behind opening an external URL from a desktop app and focusing the window of
the program that handles it.

- `src/text.rs`: trimming, ASCII case, decimal notation, character search on `Vec<char>`.
- `src/paths.rs`: Unix path file names, stems and joins; `:`-separated path lists.
- `src/external_links.rs`: URL checks, URL schemes, desktop ids and desktop files, `Exec`
  lines, command failure messages, desktop-file search directories.
- `src/linux_focus.rs`: focus-candidate normalization and deduplication, title tokens,
  window scores and the choice of the window to focus.
- `app/`: the processes, files, environment and timers around it (tokio, serde_json).
