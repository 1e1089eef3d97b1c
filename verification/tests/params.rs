use dioxus_fsrouter::params::{extract_params, RouteParams};

#[test]
fn test_extract_single_param() {
    let params = extract_params("/blog/123", "/blog/:id");
    assert_eq!(params.get("id"), Some(&"123".to_string()));
}

#[test]
fn test_extract_multiple_params() {
    let params = extract_params("/user/john/post/456", "/user/:username/post/:id");
    assert_eq!(params.get("username"), Some(&"john".to_string()));
    assert_eq!(params.get("id"), Some(&"456".to_string()));
}

#[test]
fn test_no_match_different_length() {
    let params = extract_params("/blog", "/blog/:id");
    assert!(params.is_empty());
}

#[test]
fn test_exact_match() {
    let params = extract_params("/about", "/about");
    assert!(params.is_empty());
}

#[test]
fn test_single_param() {
    let params = extract_params("/user/123", "/user/:id");
    assert_eq!(params.get("id"), Some(&"123".to_string()));
}

#[test]
fn test_multiple_params() {
    let params = extract_params("/user/john/post/456", "/user/:username/post/:id");
    assert_eq!(params.get("username"), Some(&"john".to_string()));
    assert_eq!(params.get("id"), Some(&"456".to_string()));
}

#[test]
fn test_trailing_slash() {
    let params = extract_params("/user/123/", "/user/:id");
    assert_eq!(params.get("id"), Some(&"123".to_string()));
}

#[test]
fn test_no_match() {
    let params = extract_params("/user/123/extra", "/user/:id");
    assert!(params.is_empty());
}

#[test]
fn extract_does_not_decode_or_compare_statics() {
    let params = extract_params("/x/a%20b", "/blog/:id");
    assert_eq!(params.len(), 1);
    assert_eq!(params.get("id"), Some(&"a%20b".to_string()));
    assert!(params.contains_key("id"));
    assert!(!params.contains_key("blog"));
}

#[test]
fn route_params_insert_replaces() {
    let mut params = RouteParams::new();
    assert!(params.is_empty());
    params.insert("a".to_string(), "1".to_string());
    params.insert("b".to_string(), "2".to_string());
    params.insert("a".to_string(), "3".to_string());
    assert_eq!(params.len(), 2);
    assert_eq!(params.get("a"), Some(&"3".to_string()));
    assert_eq!(params.get("b"), Some(&"2".to_string()));
    assert_eq!(params.get("c"), None);
    let copy = params.clone();
    assert_eq!(copy.get("a"), Some(&"3".to_string()));
    assert_eq!(copy.len(), 2);
}
