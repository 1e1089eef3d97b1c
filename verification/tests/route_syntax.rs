use dioxus_fsrouter::route_syntax::{
    argument_source, check_route_paths, parse_and_validate_route, validate_consistency,
    validate_param_name, ArgumentSource, ConsistencyError, ParamKind, RouteCheckError,
    RouteSyntaxError,
};

fn names(path: &str) -> (Vec<String>, bool) {
    let (set, catch_all) = parse_and_validate_route(path).unwrap();
    (set.iter().cloned().collect(), catch_all)
}

#[test]
fn valid_paths_are_accepted() {
    assert_eq!(names("/valid/path"), (vec![], false));
    assert_eq!(names("/user/:id"), (vec!["id".to_string()], false));
    assert_eq!(names("/"), (vec![], false));
    assert_eq!(names("/files/:..path"), (vec!["path".to_string()], true));
    assert_eq!(
        names("/search?query&page"),
        (vec!["query".to_string(), "page".to_string()], false)
    );
    assert_eq!(
        names("/user/:id?tab& sort &"),
        (vec!["id".to_string(), "tab".to_string(), "sort".to_string()], false)
    );
}

#[test]
fn path_must_start_with_slash() {
    assert_eq!(
        parse_and_validate_route("no-slash").unwrap_err(),
        RouteSyntaxError::MissingLeadingSlash { path: "no-slash".to_string() }
    );
    assert_eq!(
        parse_and_validate_route("").unwrap_err(),
        RouteSyntaxError::MissingLeadingSlash { path: "".to_string() }
    );
}

#[test]
fn trailing_and_double_slashes_are_rejected() {
    assert_eq!(
        parse_and_validate_route("/about/").unwrap_err(),
        RouteSyntaxError::TrailingSlash { path: "/about/".to_string() }
    );
    assert_eq!(
        parse_and_validate_route("/double//slash").unwrap_err(),
        RouteSyntaxError::DoubleSlash { path: "/double//slash".to_string() }
    );
}

#[test]
fn parameter_names_are_checked() {
    assert_eq!(
        parse_and_validate_route("/user/:").unwrap_err(),
        RouteSyntaxError::EmptyName { kind: ParamKind::Parameter }
    );
    assert_eq!(
        parse_and_validate_route("/user/:id/:id").unwrap_err(),
        RouteSyntaxError::DuplicateParameter
    );
    assert_eq!(
        parse_and_validate_route("/user/:1d").unwrap_err(),
        RouteSyntaxError::NumericStart { kind: ParamKind::Parameter }
    );
    assert_eq!(
        parse_and_validate_route("/user/:a-b").unwrap_err(),
        RouteSyntaxError::InvalidNameChars { kind: ParamKind::Parameter }
    );
    assert_eq!(
        parse_and_validate_route("/files/:..").unwrap_err(),
        RouteSyntaxError::EmptyName { kind: ParamKind::CatchAll }
    );
}

#[test]
fn segment_rules() {
    assert_eq!(
        parse_and_validate_route("/files/:..rest/more").unwrap_err(),
        RouteSyntaxError::CatchAllNotLast
    );
    assert_eq!(
        parse_and_validate_route("/a b").unwrap_err(),
        RouteSyntaxError::Whitespace
    );
    assert_eq!(
        parse_and_validate_route("/files/*").unwrap_err(),
        RouteSyntaxError::Wildcard
    );
}

#[test]
fn query_parameter_rules() {
    assert_eq!(
        parse_and_validate_route("/search?q:x").unwrap_err(),
        RouteSyntaxError::InvalidQueryParameter
    );
    assert_eq!(
        parse_and_validate_route("/search?q?x").unwrap_err(),
        RouteSyntaxError::InvalidQueryParameter
    );
    assert_eq!(
        parse_and_validate_route("/user/:id?id").unwrap_err(),
        RouteSyntaxError::DuplicateQueryParameter { name: "id".to_string() }
    );
}

#[test]
fn param_name_validation() {
    assert!(validate_param_name("user_id", ParamKind::Parameter).is_ok());
    assert!(validate_param_name("_x9", ParamKind::CatchAll).is_ok());
    assert!(validate_param_name("é", ParamKind::Parameter).is_ok());
    assert_eq!(
        validate_param_name("", ParamKind::CatchAll),
        Err(RouteSyntaxError::EmptyName { kind: ParamKind::CatchAll })
    );
    assert_eq!(
        validate_param_name("9a", ParamKind::Parameter),
        Err(RouteSyntaxError::NumericStart { kind: ParamKind::Parameter })
    );
    assert_eq!(
        validate_param_name("a.b", ParamKind::Parameter),
        Err(RouteSyntaxError::InvalidNameChars { kind: ParamKind::Parameter })
    );
}

#[test]
fn consistency_with_component_arguments() {
    let (set, _) = parse_and_validate_route("/user/:id/post/:post_id").unwrap();
    let args = vec!["post_id".to_string(), "id".to_string()];
    assert!(validate_consistency(&set, &args).is_ok());
    let too_few = vec!["id".to_string()];
    assert_eq!(
        validate_consistency(&set, &too_few),
        Err(ConsistencyError::CountMismatch { params: 2, args: 1 })
    );
    let wrong = vec!["id".to_string(), "slug".to_string()];
    assert_eq!(
        validate_consistency(&set, &wrong),
        Err(ConsistencyError::MissingArgument { param: "post_id".to_string() })
    );
}

#[test]
fn query_names_are_trimmed_of_white_space() {
    assert_eq!(
        names("/search? query &\u{3000}page\t"),
        (vec!["query".to_string(), "page".to_string()], false)
    );
    assert_eq!(
        parse_and_validate_route("/search?page& page ").unwrap_err(),
        RouteSyntaxError::DuplicateQueryParameter { name: "page".to_string() }
    );
}

#[test]
fn ascii_name_characters() {
    assert!(validate_param_name("Az09_", ParamKind::Parameter).is_ok());
    assert_eq!(
        validate_param_name("a-b", ParamKind::Parameter),
        Err(RouteSyntaxError::InvalidNameChars { kind: ParamKind::Parameter })
    );
    assert_eq!(
        validate_param_name("\u{0663}x", ParamKind::Parameter),
        Err(RouteSyntaxError::NumericStart { kind: ParamKind::Parameter })
    );
}

#[test]
fn argument_sources() {
    let (set, catch_all) = parse_and_validate_route("/files/:dir/:..rest").unwrap();
    assert!(catch_all);
    assert_eq!(argument_source("rest", false, &set, catch_all), ArgumentSource::CatchAll);
    assert_eq!(argument_source("rest", true, &set, catch_all), ArgumentSource::CatchAll);
    assert_eq!(argument_source("dir", true, &set, catch_all), ArgumentSource::Optional);
    assert_eq!(argument_source("dir", false, &set, catch_all), ArgumentSource::Required);
    let (plain, no_catch_all) = parse_and_validate_route("/user/:rest").unwrap();
    assert_eq!(argument_source("rest", false, &plain, no_catch_all), ArgumentSource::Required);
}

#[test]
fn route_and_redirect_paths_are_checked_in_order() {
    let args = vec!["id".to_string()];
    let redirects = vec!["/u/:id".to_string(), "/p/:id".to_string()];
    let (set, catch_all) = check_route_paths("/user/:id", &redirects, &args).unwrap();
    assert_eq!(set.iter().cloned().collect::<Vec<_>>(), vec!["id".to_string()]);
    assert!(!catch_all);

    assert_eq!(
        check_route_paths("user/:id", &redirects, &args).unwrap_err(),
        (
            0,
            RouteCheckError::Syntax(RouteSyntaxError::MissingLeadingSlash { path: "user/:id".to_string() })
        )
    );
    assert_eq!(
        check_route_paths("/user/:name", &redirects, &args).unwrap_err(),
        (
            0,
            RouteCheckError::Consistency(ConsistencyError::MissingArgument { param: "name".to_string() })
        )
    );
    let bad = vec!["/u/:id".to_string(), "/p//:id".to_string(), "/q".to_string()];
    assert_eq!(
        check_route_paths("/user/:id", &bad, &args).unwrap_err(),
        (
            2,
            RouteCheckError::Syntax(RouteSyntaxError::DoubleSlash { path: "/p//:id".to_string() })
        )
    );
    let mismatch = vec!["/q".to_string()];
    assert_eq!(
        check_route_paths("/user/:id", &mismatch, &args).unwrap_err(),
        (1, RouteCheckError::Consistency(ConsistencyError::CountMismatch { params: 0, args: 1 }))
    );
}
