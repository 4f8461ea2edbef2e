use url_focus::paths::{join_path, join_path_list};
use url_focus::text::{signed_decimal_string, trim_str};

#[test]
fn trims_unicode_white_space() {
    assert_eq!(trim_str("\u{3000}\t x y \u{a0}\n"), "x y");
    assert_eq!(trim_str("   "), "");
}

#[test]
fn formats_signed_decimals() {
    assert_eq!(signed_decimal_string(0), "0");
    assert_eq!(signed_decimal_string(-7), "-7");
    assert_eq!(signed_decimal_string(2147483647), "2147483647");
}

#[test]
fn joins_paths_like_std() {
    assert_eq!(join_path("/usr/share", "applications"), "/usr/share/applications");
    assert_eq!(join_path("/usr/share/", "applications"), "/usr/share/applications");
    assert_eq!(join_path("", "applications"), "applications");
    assert_eq!(join_path("/usr", "/etc/x"), "/etc/x");
    assert_eq!(join_path("/usr", ""), "/usr/");
    assert_eq!(join_path_list("", "apps"), vec!["apps"]);
    assert_eq!(join_path_list("a::b", "apps"), vec!["a/apps", "apps", "b/apps"]);
}
