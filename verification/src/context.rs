//! Contexts that a rendered route component receives.

use crate::params::RouteParams;
use vstd::prelude::*;

verus! {

/// Context providing metadata about the currently active route.
#[derive(Debug, Clone)]
pub struct RouteContext {
    /// The actual URL path (e.g. "/article/hello-world")
    pub url: String,
    /// The pattern that matched (e.g. "/article/:slug")
    pub pattern: String,
    /// Name of the matched component
    pub component_name: String,
    /// Extracted route parameters
    pub params: RouteParams,
}

impl RouteContext {
    /// Create a route context.
    pub fn new(url: String, pattern: String, component_name: String, params: RouteParams) -> (context:
        Self)
        ensures
            context.url == url,
            context.pattern == pattern,
            context.component_name == component_name,
            context.params == params,
    {
        RouteContext { url, pattern, component_name, params }
    }

    /// Get a route parameter by name
    pub fn param(&self, name: &str) -> (value: Option<&str>)
        ensures
            value is Some <==> self.params@.contains_key(name@),
            value matches Some(text) ==> text@ == self.params@[name@],
    {
        match self.params.get(name) {
            Some(text) => Some(text.as_str()),
            None => None,
        }
    }
}

/// Context passed to route render functions
#[derive(Debug, Clone)]
pub struct RenderContext {
    /// The matched URL path
    pub path: String,
    /// Extracted route parameters (e.g. :id)
    pub params: RouteParams,
}

impl RenderContext {
    /// Create a render context with no parameters.
    pub fn new(path: String) -> (context: Self)
        ensures
            context.path == path,
            context.params@ == Map::<Seq<char>, Seq<char>>::empty(),
    {
        RenderContext { path, params: RouteParams::new() }
    }
}

} // verus!
