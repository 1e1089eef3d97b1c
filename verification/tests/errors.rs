use dioxus_fsrouter::errors::{RouterError, ValidationErrors};

#[test]
fn test_router_error_duplicate_display() {
    let error = RouterError::DuplicateRoute {
        path: "/test".to_string(),
        first_component: "module::Component1".to_string(),
        second_component: "module::Component2".to_string(),
    };

    let message = error.to_string();
    assert!(message.contains("Duplicate route"));
    assert!(message.contains("/test"));
    assert!(message.contains("Component1"));
    assert!(message.contains("Component2"));
}

#[test]
fn test_no_routes_error_display() {
    let error = RouterError::NoRoutesRegistered;
    let message = error.to_string();

    assert!(message.contains("No routes"));
    assert!(message.contains("#[route"));
    assert!(message.contains("Imported all modules"));
}

#[test]
fn test_invalid_path_error_display() {
    let error = RouterError::InvalidRoutePath {
        path: "invalid".to_string(),
        reason: "must start with '/'".to_string(),
    };

    let message = error.to_string();
    assert!(message.contains("Invalid route path"));
    assert!(message.contains("invalid"));
    assert!(message.contains("must start"));
}

#[test]
fn test_validation_errors_single() {
    let mut errors = ValidationErrors::new();
    errors.add(RouterError::NoRoutesRegistered);

    let message = errors.to_string();
    assert!(message.contains("1 error"));
    assert!(message.contains("No routes"));
}

#[test]
fn test_validation_errors_multiple() {
    let mut errors = ValidationErrors::new();
    errors.add(RouterError::DuplicateRoute {
        path: "/test1".to_string(),
        first_component: "A".to_string(),
        second_component: "B".to_string(),
    });
    errors.add(RouterError::DuplicateRoute {
        path: "/test2".to_string(),
        first_component: "C".to_string(),
        second_component: "D".to_string(),
    });

    let message = errors.to_string();
    assert!(message.contains("2 error"));
    assert!(message.contains("/test1"));
    assert!(message.contains("/test2"));
    assert!(message.contains("1."));
    assert!(message.contains("2."));
}

#[test]
fn test_validation_errors_is_empty() {
    let mut errors = ValidationErrors::new();
    assert!(errors.is_empty());
    assert_eq!(errors.len(), 0);

    errors.add(RouterError::NoRoutesRegistered);
    assert!(!errors.is_empty());
    assert_eq!(errors.len(), 1);
}

#[test]
fn test_validation_errors_access() {
    let mut errors = ValidationErrors::new();
    errors.add(RouterError::NoRoutesRegistered);
    errors.add(RouterError::InvalidRoutePath {
        path: "/test".to_string(),
        reason: "test".to_string(),
    });

    assert_eq!(errors.errors().len(), 2);
    assert!(matches!(
        errors.errors()[0],
        RouterError::NoRoutesRegistered
    ));
    assert!(matches!(
        errors.errors()[1],
        RouterError::InvalidRoutePath { .. }
    ));
}

#[test]
fn test_router_error_implements_error_trait() {
    let error = RouterError::NoRoutesRegistered;
    assert!(error.to_string().contains("No routes"));
}

#[test]
fn test_validation_errors_implements_error_trait() {
    let mut errors = ValidationErrors::new();
    errors.add(RouterError::NoRoutesRegistered);

    assert!(errors.to_string().contains("validation failed"));
}

#[test]
fn validation_errors_basic_behaviour() {
    let mut errors = ValidationErrors::new();
    assert!(errors.is_empty());
    assert_eq!(errors.len(), 0);

    errors.add(RouterError::NoRoutesRegistered);
    assert!(!errors.is_empty());
    assert_eq!(errors.len(), 1);

    let message = errors.to_string();
    assert!(message.contains("validation failed"));
    assert!(message.contains("No routes"));
}

#[test]
fn duplicate_message_is_exact() {
    let error = RouterError::DuplicateRoute {
        path: "/a".to_string(),
        first_component: "X".to_string(),
        second_component: "Y".to_string(),
    };
    assert_eq!(
        error.to_string(),
        "Duplicate route detected:\nPath: '/a'\nFirst defined in: X\nAlso defined in: Y\nEach route path must be unique."
    );
}

#[test]
fn invalid_path_message_is_exact() {
    let error = RouterError::InvalidRoutePath {
        path: "x".to_string(),
        reason: "bad".to_string(),
    };
    assert_eq!(error.to_string(), "Invalid route path 'x': bad");
}

#[test]
fn validation_message_numbers_entries() {
    let mut errors = ValidationErrors::new();
    errors.add(RouterError::InvalidRoutePath {
        path: "a".to_string(),
        reason: "r1".to_string(),
    });
    errors.add(RouterError::InvalidRoutePath {
        path: "b".to_string(),
        reason: "r2".to_string(),
    });
    assert_eq!(
        errors.to_string(),
        "Route validation failed with 2 error(s):\n\n1. Invalid route path 'a': r1\n\n2. Invalid route path 'b': r2"
    );
}

#[test]
fn validation_message_counts_past_nine() {
    let mut errors = ValidationErrors::new();
    for _ in 0..12 {
        errors.add(RouterError::NoRoutesRegistered);
    }
    let message = errors.to_string();
    assert!(message.starts_with("Route validation failed with 12 error(s):\n"));
    assert!(message.contains("\n12. No routes"));
    assert!(message.contains("\n10. No routes"));
}

#[test]
fn errors_list_from_vec_and_default() {
    let list = dioxus_fsrouter::RouterErrorsList::from(vec![RouterError::NoRoutesRegistered]);
    assert_eq!(list.len(), 1);
    assert!(!list.is_empty());
    let empty = dioxus_fsrouter::RouterErrorsList::default();
    assert!(empty.is_empty());
    let defaulted = ValidationErrors::default();
    assert!(defaulted.is_empty());
}
