use dioxus_fsrouter::pattern::{normalize_url, RoutePattern, Segment};

// ===== Pattern Parsing Tests =====

#[test]
fn test_parse_static_route() {
    let pattern = RoutePattern::parse("/about");
    assert_eq!(pattern.segments().len(), 1);
    assert_eq!(pattern.segments()[0], Segment::Static("about".to_string()));
    assert!(pattern.is_static());
}

#[test]
fn test_parse_single_param() {
    let pattern = RoutePattern::parse("/user/:id");
    assert_eq!(pattern.segments().len(), 2);
    assert_eq!(pattern.segments()[0], Segment::Static("user".to_string()));
    assert_eq!(pattern.segments()[1], Segment::Param("id".to_string()));
    assert!(pattern.has_params());
}

#[test]
fn test_parse_multiple_params() {
    let pattern = RoutePattern::parse("/user/:user_id/post/:post_id");
    assert_eq!(pattern.segments().len(), 4);
    assert_eq!(pattern.param_names(), vec!["user_id", "post_id"]);
}

// ===== Pattern Matching Tests =====

#[test]
fn test_match_static_route() {
    let pattern = RoutePattern::parse("/about");
    assert!(pattern.matches("/about").is_some());
    assert!(pattern.matches("/contact").is_none());
    assert!(pattern.matches("/about/more").is_none());
}

#[test]
fn test_match_with_params() {
    let pattern = RoutePattern::parse("/user/:id");

    let params = pattern.matches("/user/123").unwrap();
    assert_eq!(params.get("id"), Some(&"123".to_string()));

    assert!(pattern.matches("/user").is_none());
    assert!(pattern.matches("/user/123/extra").is_none());
}

#[test]
fn test_match_multiple_params() {
    let pattern = RoutePattern::parse("/user/:user_id/post/:post_id");

    let params = pattern.matches("/user/alice/post/42").unwrap();
    assert_eq!(params.get("user_id"), Some(&"alice".to_string()));
    assert_eq!(params.get("post_id"), Some(&"42".to_string()));
}

#[test]
fn test_match_with_trailing_slash() {
    let pattern = RoutePattern::parse("/about");
    // Trailing slashes are normalised away
    assert!(pattern.matches("/about/").is_some());
}

#[test]
fn test_match_with_query_string() {
    let pattern = RoutePattern::parse("/search");
    // Query strings are removed during normalisation
    assert!(pattern.matches("/search?q=rust").is_some());
}

// ===== URL Decoding Tests =====

#[test]
fn test_decode_simple_param() {
    let pattern = RoutePattern::parse("/user/:name");
    let params = pattern.matches("/user/john").unwrap();
    assert_eq!(params.get("name"), Some(&"john".to_string()));
}

#[test]
fn test_decode_url_encoded_param() {
    let pattern = RoutePattern::parse("/user/:name");
    let params = pattern.matches("/user/john%20doe").unwrap();
    assert_eq!(params.get("name"), Some(&"john doe".to_string()));
}

#[test]
fn test_decode_special_chars() {
    let pattern = RoutePattern::parse("/search/:query");
    let params = pattern.matches("/search/rust%26web").unwrap();
    assert_eq!(params.get("query"), Some(&"rust&web".to_string()));
}

#[test]
fn test_decode_percent_sign() {
    let pattern = RoutePattern::parse("/discount/:amount");
    let params = pattern.matches("/discount/50%25").unwrap();
    assert_eq!(params.get("amount"), Some(&"50%".to_string()));
}

// ===== Priority Tests =====

#[test]
fn test_priority_calculation() {
    let static_route = RoutePattern::parse("/about");
    let dynamic_route = RoutePattern::parse("/user/:id");
    let mixed_route = RoutePattern::parse("/user/posts/:id");

    // /about: 10,000×1 + 1 = 10,001
    assert_eq!(static_route.priority(), 10_001);

    // /user/:id: 10,000×2 + 1,000×1 + 2 = 21,002
    assert_eq!(dynamic_route.priority(), 21_002);

    // /user/posts/:id: 10,000×3 + 10,000×2 + 1,000×1 + 3 = 51,003
    assert_eq!(mixed_route.priority(), 51_003);
}

#[test]
fn test_priority_ordering() {
    let routes = vec![
        RoutePattern::parse("/user/:id"),       // 21,002
        RoutePattern::parse("/user/new"),       // 30,002
        RoutePattern::parse("/user/:id/edit"),  // 32,003
        RoutePattern::parse("/user/new/posts"), // 40,003
    ];

    let mut sorted = routes.clone();
    sorted.sort_by(|a, b| b.priority().cmp(&a.priority()));

    // Check order (the highest priority first)
    assert_eq!(sorted[0].raw(), "/user/new/posts"); // 40,003
    assert_eq!(sorted[1].raw(), "/user/:id/edit"); // 32,003
    assert_eq!(sorted[2].raw(), "/user/new"); // 30,002
    assert_eq!(sorted[3].raw(), "/user/:id"); // 21,002
}

#[test]
fn test_static_beats_dynamic_at_same_position() {
    let static_route = RoutePattern::parse("/user/new");
    let dynamic_route = RoutePattern::parse("/user/:id");

    // Both have 2 segments, but static should win
    assert!(static_route.priority() > dynamic_route.priority());
}

// ===== URL Normalization Tests =====

#[test]
fn test_normalize_url_basic() {
    assert_eq!(normalize_url("/about"), "/about");
    assert_eq!(normalize_url("/"), "/");
    assert_eq!(normalize_url(""), "/");
}

#[test]
fn test_normalize_url_trailing_slash() {
    assert_eq!(normalize_url("/about/"), "/about");
    assert_eq!(normalize_url("/user/profile/"), "/user/profile");
}

#[test]
fn test_normalize_url_no_leading_slash() {
    assert_eq!(normalize_url("about"), "/about");
    assert_eq!(normalize_url("user/profile"), "/user/profile");
}

#[test]
fn test_normalize_url_multiple_slashes() {
    assert_eq!(normalize_url("//about//"), "/about");
    assert_eq!(normalize_url("/user//profile"), "/user/profile");
    assert_eq!(normalize_url("///"), "/");
}

#[test]
fn test_normalize_url_query_string() {
    assert_eq!(normalize_url("/search?q=rust"), "/search");
    assert_eq!(normalize_url("/search?q=rust&page=2"), "/search");
}

#[test]
fn test_normalize_url_fragment() {
    assert_eq!(normalize_url("/docs#introduction"), "/docs");
    assert_eq!(normalize_url("/about#team"), "/about");
}

#[test]
fn test_normalize_url_combined() {
    assert_eq!(normalize_url("/search?q=rust#results"), "/search");
    assert_eq!(normalize_url("//api//v1/?format=json#response"), "/api/v1");
}

#[test]
fn test_root_route() {
    let pattern = RoutePattern::parse("/");
    assert_eq!(pattern.segments().len(), 0);
    assert!(pattern.matches("/").is_some());
    assert!(pattern.matches("/about").is_none());
}

// ===== Further cases =====

#[test]
fn priority_examples_from_the_scoring_rules() {
    // /user/new = 10,000×2 + 10,000×1 + 2 = 30,002
    assert_eq!(RoutePattern::parse("/user/new").priority(), 30_002);
    // /user/:id/edit = 10,000×3 + 1,000×2 + 10,000×1 + 3 = 42,003
    assert_eq!(RoutePattern::parse("/user/:id/edit").priority(), 42_003);
    // /user/new/posts = 10,000×3 + 10,000×2 + 10,000×1 + 3 = 60,003
    assert_eq!(RoutePattern::parse("/user/new/posts").priority(), 60_003);
    assert!(RoutePattern::priority_fits("/user/new/posts"));
}

#[test]
fn calculate_priority_of_two_params() {
    // /:type/:id = 1,000×2 + 1,000×1 + 2 = 3,002
    let pattern = RoutePattern::parse("/:type/:id");
    assert_eq!(pattern.priority(), 3_002);
    assert_eq!(RoutePattern::calculate_priority(pattern.segments()), 3_002);
    assert_eq!(RoutePattern::calculate_priority(&[]), 0);
}

#[test]
fn param_names_and_raw_are_kept() {
    let pattern = RoutePattern::parse("//user//:id/");
    assert_eq!(pattern.raw(), "//user//:id/");
    assert_eq!(pattern.param_names(), vec!["id"]);
    assert!(!pattern.is_static());
    assert!(RoutePattern::parse("/a/b").param_names().is_empty());
}

#[test]
fn invalid_percent_encoding_does_not_match() {
    // %FF is not valid UTF-8 once decoded
    let pattern = RoutePattern::parse("/user/:name");
    assert!(pattern.matches("/user/%FF").is_none());
    // an incomplete escape is kept literally
    let params = pattern.matches("/user/50%").unwrap();
    assert_eq!(params.get("name"), Some(&"50%".to_string()));
}

#[test]
fn repeated_param_name_keeps_last_value() {
    let pattern = RoutePattern::parse("/:x/:x");
    let params = pattern.matches("/a/b").unwrap();
    assert_eq!(params.len(), 1);
    assert_eq!(params.get("x"), Some(&"b".to_string()));
}

#[test]
fn static_segments_are_case_sensitive() {
    let pattern = RoutePattern::parse("/About");
    assert!(pattern.matches("/about").is_none());
    assert!(pattern.matches("/About#x").is_some());
}

#[test]
fn normalize_is_idempotent_on_examples() {
    for url in ["", "/", "//a//b/?q#f", "x/y", "/search?q=rust#results", "/a#b?c"] {
        let once = normalize_url(url);
        assert_eq!(normalize_url(&once), once);
    }
    assert_eq!(normalize_url("/a#b?c"), "/a");
}

#[test]
fn matching_ignores_normalization_on_examples() {
    let pattern = RoutePattern::parse("/user/:id");
    for url in ["//user//7/?x=1", "user/7#top", "/user/7"] {
        let direct = pattern.matches(url).map(|p| p.get("id").cloned());
        let normal = pattern.matches(&normalize_url(url)).map(|p| p.get("id").cloned());
        assert_eq!(direct, normal);
        assert_eq!(direct, Some(Some("7".to_string())));
    }
}

#[test]
fn earlier_static_segment_wins() {
    // static at position 0, param at 1 beats the reverse
    let a = RoutePattern::parse("/user/:id");
    let b = RoutePattern::parse("/:kind/new");
    assert!(a.priority() > b.priority());
    // deeper routes break ties of equal weighted score
    assert_eq!(RoutePattern::parse("/a").priority(), 10_001);
}

#[test]
fn normalized_urls_have_the_normal_form() {
    for url in ["", "a", "//a//b//", "/a?b#c", "?x", "#y", "/a/b/c/"] {
        let n = normalize_url(url);
        assert!(n.starts_with('/'));
        assert!(!n.contains('?') && !n.contains('#'));
        assert!(!n.contains("//"));
        assert!(n == "/" || !n.ends_with('/'));
    }
    assert_eq!(normalize_url("?x"), "/");
}

#[test]
fn matched_params_are_the_pattern_names() {
    let pattern = RoutePattern::parse("/a/:x/b/:y");
    let params = pattern.matches("/a/1/b/2").unwrap();
    assert_eq!(params.len(), pattern.param_names().len());
    for name in pattern.param_names() {
        assert!(params.contains_key(name));
    }
    assert!(pattern.matches("/a/1/c/2").is_none());
}

#[test]
fn escapes_decode_to_their_characters() {
    let pattern = RoutePattern::parse("/user/:name");
    // hex digits in either case
    let params = pattern.matches("/user/%41%6a").unwrap();
    assert_eq!(params.get("name"), Some(&"Aj".to_string()));
    // a multi-byte UTF-8 character spelled out in escapes
    let params = pattern.matches("/user/%C3%A9t%C3%A9").unwrap();
    assert_eq!(params.get("name"), Some(&"été".to_string()));
    // a `%` without two hex digits after it stays as it is
    let params = pattern.matches("/user/%zz").unwrap();
    assert_eq!(params.get("name"), Some(&"%zz".to_string()));
    // `+` is not a space
    let params = pattern.matches("/user/a+b").unwrap();
    assert_eq!(params.get("name"), Some(&"a+b".to_string()));
}

#[test]
fn priority_gains_are_exact() {
    let static_at_1 = RoutePattern::parse("/user/new").priority();
    let param_at_1 = RoutePattern::parse("/user/:id").priority();
    assert_eq!(static_at_1, param_at_1 + 9_000);
    let earlier = RoutePattern::parse("/api/:resource/:id").priority();
    let later = RoutePattern::parse("/:version/users/:id").priority();
    assert_eq!(earlier, 33_003);
    assert_eq!(later, 24_003);
    assert_eq!(earlier, later + 9_000);
    let more_static = RoutePattern::parse("/a/b/:c").priority();
    let fewer_static = RoutePattern::parse("/a/:b/:c").priority();
    assert!(more_static > fewer_static);
}

#[test]
fn trailing_slash_keeps_normal_form() {
    assert_eq!(normalize_url("/a/b/"), normalize_url("/a/b"));
    assert_eq!(normalize_url("a//b//"), "/a/b");
    assert_eq!(normalize_url(&normalize_url("/x/?q=1")), normalize_url("/x/?q=1"));
}
