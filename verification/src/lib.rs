//! Deciding how an external URL is opened and which window to focus afterwards: URL checks,
//! desktop-entry parsing, focus-candidate normalization and window matching.

pub mod external_links;
pub mod linux_focus;
pub mod paths;
pub mod text;
