# dioxus-fsrouter

The routing logic of a component-based router for Dioxus, verified with
Verus, and the Dioxus side around it.

`src/` is the verified library:

- `pattern` parses route paths such as `/user/:id` into static and parameter
  segments, gives each pattern its position-weighted priority, normalises
  URLs and matches a URL against a pattern (percent-decoding parameters
  through `urlencoding`).
- `params` holds the extracted parameters and extracts them from a path and
  a pattern string.
- `route` holds route metadata, orders a route table by priority (stably)
  and finds the route that serves a URL.
- `validate` checks a route table for an empty table, duplicate paths and
  ambiguous routes of equal priority.
- `route_syntax` checks the route paths written in route attributes, and
  their redirect paths, against the component's arguments (collecting names
  in an `indexmap::IndexSet`), and decides how each argument is filled in.
- `errors`, `link`, `context` and `text` hold the error types and their
  messages, the internal-link test, the route contexts and the character
  level splitting and joining that the rest is stated over.

`app/` is the part that runs in the browser and at compile time: the global
route registry filled through `inventory`, the `Router`, `Outlet` and `Link`
components, browser history navigation, error types implementing
`std::error::Error`, and the token-stream expansion of the route attribute.
