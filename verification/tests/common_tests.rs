use fuzz_ci::common::{
    make_relative_to_repo, new_local_path, reports_url, resolve_path_list, sanitize_path_segment,
    sanitize_url_path_segment,
};
use fuzz_ci::error::Error;

#[test]
fn path_segments_lose_their_separators() {
    assert_eq!(sanitize_path_segment("feature/branch"), "feature_branch");
    assert_eq!(sanitize_path_segment("plain"), "plain");
    assert_eq!(sanitize_path_segment("a:b*c"), "a_b_c");
}

#[test]
fn local_paths_join_sanitized_segments() {
    assert_eq!(new_local_path(&["feature/x", "run 1"]), "feature_x/run 1");
    assert_eq!(new_local_path(&["main"]), "main");
    assert_eq!(new_local_path(&[]), "");
}

#[test]
fn url_segments_are_percent_encoded() {
    assert_eq!(sanitize_url_path_segment("a b"), "a%20b");
    assert_eq!(sanitize_url_path_segment("abc123"), "abc123");
    assert_eq!(sanitize_url_path_segment("x/y?"), "x%2Fy%3F");
    assert_eq!(sanitize_url_path_segment("\u{00e9}"), "%C3%A9");
}

#[test]
fn report_urls_append_escaped_segments() {
    let url = reports_url("http://host/reports/", &["my branch"]).expect("joins");
    assert_eq!(url, "http://host/reports/my%20branch");
}

#[test]
fn bad_base_urls_are_rejected() {
    assert!(matches!(reports_url("not a url", &["x"]), Err(Error::UrlParse)));
}

#[test]
fn relative_paths_resolve_against_the_repository() {
    assert_eq!(make_relative_to_repo("/repo", "sub/dir").as_deref(), Some("/repo/sub/dir"));
    assert_eq!(make_relative_to_repo("/repo", "/abs/path").as_deref(), Some("/abs/path"));
    assert_eq!(make_relative_to_repo("", "sub").as_deref(), Some("sub"));
}

#[test]
fn path_lists_resolve_piece_by_piece() {
    assert_eq!(
        resolve_path_list("/repo", "a:/abs:b/c"),
        "/repo/a:/abs:/repo/b/c",
    );
    assert_eq!(resolve_path_list("/repo", "only"), "/repo/only");
}
