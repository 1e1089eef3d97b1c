use dioxus_fsrouter::context::{RenderContext, RouteContext};
use dioxus_fsrouter::is_internal_path;
use dioxus_fsrouter::params::extract_params;

#[test]
fn internal_paths() {
    assert!(is_internal_path("/about"));
    assert!(!is_internal_path("  /about"));
    assert!(is_internal_path("/"));
    assert!(!is_internal_path("//evil.example"));
    assert!(!is_internal_path("https://example.com"));
    assert!(!is_internal_path(""));
    assert!(!is_internal_path("about"));
}

#[test]
fn route_context_param_lookup() {
    let params = extract_params("/blog/42", "/blog/:id");
    let context = RouteContext::new(
        "/blog/42".to_string(),
        "/blog/:id".to_string(),
        "app::Blog".to_string(),
        params,
    );
    assert_eq!(context.param("id"), Some("42"));
    assert_eq!(context.param("slug"), None);
    assert_eq!(context.url, "/blog/42");
}

#[test]
fn render_context_starts_without_params() {
    let context = RenderContext::new("/x".to_string());
    assert_eq!(context.path, "/x");
    assert!(context.params.is_empty());
}

#[test]
fn leading_white_space_is_not_internal() {
    assert!(!is_internal_path("\u{3000}\t/about"));
    assert!(!is_internal_path(" //evil.example"));
    assert!(!is_internal_path("\t/about"));
}
