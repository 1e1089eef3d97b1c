//! Route patterns, URL normalisation, parameter extraction, route lookup and
//! route-table validation for a component-based router, with their
//! contracts proved.

pub mod context;
pub mod errors;
pub mod link;
pub mod params;
pub mod pattern;
pub mod route;
pub mod route_syntax;
pub mod text;
pub mod validate;

pub use context::{RenderContext, RouteContext};
pub use errors::{RouterError, RouterErrorsList, ValidationErrors};
pub use link::is_internal_path;
pub use params::{extract_params, RouteParams};
pub use pattern::{normalize_url, RoutePattern, Segment};
pub use route::{find_route, match_route, sort_by_priority, RouteInfo};
pub use route_syntax::{
    argument_source, check_route_paths, parse_and_validate_route, validate_consistency,
    validate_param_name, ArgumentSource, ConsistencyError, ParamKind, RouteCheckError,
    RouteSyntaxError,
};
pub use validate::{are_patterns_ambiguous, validate_routes, validate_routes_or_panic};
