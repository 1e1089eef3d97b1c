use dioxus_fsrouter::errors::RouterError;
use dioxus_fsrouter::route::{find_route, match_route, sort_by_priority, RouteInfo};
use dioxus_fsrouter::validate::{are_patterns_ambiguous, validate_routes, validate_routes_or_panic};
use dioxus_fsrouter::{RoutePattern, Segment};

fn table(entries: &[(&str, &str)]) -> Vec<RouteInfo> {
    entries
        .iter()
        .map(|(path, component)| RouteInfo::new(path, component))
        .collect()
}

fn sorted_table(entries: &[(&str, &str)]) -> Vec<RouteInfo> {
    let routes = table(entries);
    let order = sort_by_priority(&routes);
    order.iter().map(|&i| routes[i].clone()).collect()
}

#[test]
fn registry_should_reject_duplicate_static_routes() {
    let registry = table(&[("/duplicate", "ComponentA"), ("/duplicate", "ComponentB")]);
    let result = validate_routes(&registry);

    assert!(result.is_err());
    let err = result.unwrap_err();
    assert!(err.to_string().contains("Duplicate route"));
}

#[test]
fn registry_should_reject_ambiguous_routes() {
    // /post/:id vs /post/:slug -> These have the same structure and priority
    let registry = table(&[("/post/:id", "PostById"), ("/post/:slug", "PostBySlug")]);
    let result = validate_routes(&registry);

    assert!(result.is_err());
    let err = result.unwrap_err();
    assert!(err.to_string().contains("Ambiguous routes"));
    assert!(err.to_string().contains("PostById"));
    assert!(err.to_string().contains("PostBySlug"));
}

#[test]
fn static_routes_should_have_higher_priority() {
    let routes = sorted_table(&[
        ("/__test_priority/:slug", "tests::TestPriorityDynamic"),
        ("/__test_priority/static", "tests::TestPriorityStatic"),
    ]);

    // Static match should win
    let (index, _) = find_route(&routes, "/__test_priority/static").unwrap();
    assert!(routes[index].component_name().contains("TestPriorityStatic"));

    // Dynamic match should be taken only if static doesn't match
    let (index, params) = find_route(&routes, "/__test_priority/other").unwrap();
    assert!(routes[index].component_name().contains("TestPriorityDynamic"));
    assert_eq!(params.get("slug").map(|s| s.as_str()), Some("other"));
}

#[test]
fn should_find_route_with_username_param_and_parse_string() {
    let routes = sorted_table(&[
        ("/__test_home", "tests::TestHome"),
        ("/__test_about", "tests::TestAbout"),
        ("/__test_user/:username", "tests::TestUser"),
    ]);
    let (index, params) =
        find_route(&routes, "/__test_user/alice").expect("Should match /__test_user/:username");
    assert!(routes[index].component_name().contains("TestUser"));
    assert_eq!(params.get("username").map(|s| s.as_str()), Some("alice"));
}

#[test]
fn empty_table_is_rejected() {
    let result = validate_routes(&[]);
    let errors = result.unwrap_err();
    assert_eq!(errors.len(), 1);
    assert!(matches!(errors.errors()[0], RouterError::NoRoutesRegistered));
}

#[test]
fn valid_table_is_accepted() {
    let routes = table(&[
        ("/", "Home"),
        ("/about", "About"),
        ("/user/:id", "User"),
        ("/user/new", "NewUser"),
        ("/post/:id", "Post"),
    ]);
    assert!(validate_routes(&routes).is_ok());
    validate_routes_or_panic(&routes);
}

#[test]
fn duplicates_are_reported_once_each_in_order() {
    let routes = table(&[
        ("/a", "A1"),
        ("/b", "B1"),
        ("/a", "A2"),
        ("/a", "A3"),
    ]);
    let errors = validate_routes(&routes).unwrap_err();
    assert_eq!(errors.len(), 2);
    match &errors.errors()[0] {
        RouterError::DuplicateRoute { path, first_component, second_component } => {
            assert_eq!(path, "/a");
            assert_eq!(first_component, "A1");
            assert_eq!(second_component, "A2");
        }
        other => panic!("unexpected {:?}", other),
    }
    match &errors.errors()[1] {
        RouterError::DuplicateRoute { first_component, second_component, .. } => {
            assert_eq!(first_component, "A1");
            assert_eq!(second_component, "A3");
        }
        other => panic!("unexpected {:?}", other),
    }
}

#[test]
fn ambiguity_needs_equal_priority() {
    // same shape but different priorities: not reported
    let routes = table(&[("/user/new", "New"), ("/user/:id", "User")]);
    assert!(validate_routes(&routes).is_ok());
    // three-way ambiguity: every pair reported, in order
    let routes = table(&[("/p/:a", "A"), ("/p/:b", "B"), ("/p/:c", "C")]);
    let errors = validate_routes(&routes).unwrap_err();
    assert_eq!(errors.len(), 3);
    match &errors.errors()[2] {
        RouterError::AmbiguousRoutes { component_a, component_b, .. } => {
            assert_eq!(component_a, "B");
            assert_eq!(component_b, "C");
        }
        other => panic!("unexpected {:?}", other),
    }
}

#[test]
fn duplicates_are_left_out_of_ambiguity_check() {
    let routes = table(&[("/p/:a", "A"), ("/p/:a", "A2")]);
    let errors = validate_routes(&routes).unwrap_err();
    assert_eq!(errors.len(), 1);
    assert!(matches!(errors.errors()[0], RouterError::DuplicateRoute { .. }));
}

#[test]
fn ambiguity_of_segments() {
    let user_id = vec![Segment::Static("user".into()), Segment::Param("id".into())];
    let user_name = vec![Segment::Static("user".into()), Segment::Param("name".into())];
    assert!(are_patterns_ambiguous(&user_id, &user_name));
    let user_profile = vec![Segment::Static("user".into()), Segment::Static("profile".into())];
    let post_edit = vec![Segment::Static("post".into()), Segment::Static("edit".into())];
    assert!(!are_patterns_ambiguous(&user_profile, &post_edit));
    assert!(are_patterns_ambiguous(&user_id, &user_profile));
    assert!(are_patterns_ambiguous(&user_profile, &user_id));
    let short = vec![Segment::Static("user".into())];
    assert!(!are_patterns_ambiguous(&short, &user_id));
    let p = RoutePattern::parse("/User/:id");
    assert!(!are_patterns_ambiguous(p.segments(), &user_id));
}

#[test]
fn sort_is_stable_and_descending() {
    let routes = table(&[
        ("/user/:id", "A"),
        ("/user/new", "B"),
        ("/x/:y", "C"),
        ("/user/:id/edit", "D"),
        ("/user/new/posts", "E"),
    ]);
    let order = sort_by_priority(&routes);
    let names: Vec<&str> = order.iter().map(|&i| routes[i].component_name()).collect();
    assert_eq!(names, vec!["E", "D", "B", "A", "C"]);
}

#[test]
fn find_route_returns_first_match_or_none() {
    let routes = table(&[("/a/:x", "First"), ("/a/:y", "Second")]);
    let (index, params) = find_route(&routes, "/a/1").unwrap();
    assert_eq!(index, 0);
    assert_eq!(params.get("x"), Some(&"1".to_string()));
    assert!(find_route(&routes, "/b").is_none());
    assert!(find_route(&[], "/").is_none());
}

#[test]
fn match_route_is_exact() {
    let routes = table(&[("/about", "About"), ("/user/:id", "User")]);
    assert_eq!(match_route(&routes, "/about"), Some(0));
    assert_eq!(match_route(&routes, "/user/:id"), Some(1));
    assert_eq!(match_route(&routes, "/user/1"), None);
    assert_eq!(match_route(&routes, "/about/"), None);
}

#[test]
fn route_info_accessors() {
    let route = RouteInfo::new("/user/:id", "app::User");
    assert_eq!(route.path(), "/user/:id");
    assert_eq!(route.component_name(), "app::User");
    assert_eq!(route.priority(), 21_002);
    assert_eq!(route.pattern().raw(), "/user/:id");
    assert!(route.matches("/user/9").is_some());
    assert!(route.matches("/user").is_none());
    let other = RouteInfo::new("/user/:id", "app::Other");
    assert!(route.has_same_path(&other));
}

#[test]
fn valid_table_matches_at_most_one_route_per_priority() {
    let routes = table(&[
        ("/user/new", "NewUser"),
        ("/user/:id", "User"),
        ("/post/:id", "Post"),
        ("/about", "About"),
    ]);
    assert!(validate_routes(&routes).is_ok());
    for url in ["/user/new", "/user/7", "/post/1", "/about", "/x"] {
        let matching: Vec<usize> = (0..routes.len())
            .filter(|&i| routes[i].matches(url).is_some())
            .collect();
        for (a, &i) in matching.iter().enumerate() {
            for &j in &matching[a + 1..] {
                assert_ne!(routes[i].priority(), routes[j].priority());
            }
        }
    }
    // the highest-priority match serves the URL once the table is sorted
    let sorted = sorted_table(&[("/user/:id", "User"), ("/user/new", "NewUser")]);
    let (index, params) = find_route(&sorted, "/user/new").unwrap();
    assert_eq!(sorted[index].component_name(), "NewUser");
    assert!(params.is_empty());
}

#[test]
fn sort_gives_each_position_once() {
    let routes = table(&[("/a", "A"), ("/a", "A"), ("/:x", "X"), ("/b/c", "B")]);
    let mut order = sort_by_priority(&routes);
    assert_eq!(order.len(), routes.len());
    assert_eq!(order, vec![3, 0, 1, 2]);
    order.sort();
    assert_eq!(order, vec![0, 1, 2, 3]);
}

#[test]
fn ambiguous_patterns_share_a_url() {
    let a = RoutePattern::parse("/a/:x");
    let b = RoutePattern::parse("/:y/b");
    assert!(are_patterns_ambiguous(a.segments(), b.segments()));
    assert!(a.matches("/a/b").is_some());
    assert!(b.matches("/a/b").is_some());
    let c = RoutePattern::parse("/c/:x");
    assert!(!are_patterns_ambiguous(a.segments(), c.segments()));
}
