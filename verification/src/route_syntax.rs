//! The syntax rules of a route path written in a route attribute: a leading
//! slash, no trailing or doubled slashes, well-formed and unique parameter
//! names, a catch-all parameter only at the end, and query parameter names.

use crate::text::{
    has_char, nonempty_pieces, split_all, split_nonempty, split_once, split_pieces, to_chars,
    trim_white_space,
};
use crate::pattern::{lemma_slash_joined_pieces, url_of_segments};
use indexmap::IndexSet;
use vstd::prelude::*;

verus! {

/// `indexmap::IndexSet`, an insertion-ordered hash set, as an opaque type.
#[verifier::external_type_specification]
#[verifier::external_body]
#[verifier::reject_recursive_types(T)]
#[verifier::reject_recursive_types(S)]
pub struct ExIndexSet<T, S>(IndexSet<T, S>);

/// The names an insertion-ordered set of names holds, in insertion order.
pub uninterp spec fn index_set_items(set: IndexSet<String>) -> Seq<Seq<char>>;

/// Calls `IndexSet::new`. Trusted claim: the new set holds no names.
#[verifier::external_body]
fn new_name_set() -> (set: IndexSet<String>)
    ensures
        index_set_items(set) == Seq::<Seq<char>>::empty(),
{
    IndexSet::new()
}

/// Calls `IndexSet::insert`. Trusted claim, as the crate documents it: a name
/// equal to one the set holds (`String` equality is equality of the
/// characters) leaves the set as it is and gives `false`; any other name is
/// added last in order and gives `true`.
#[verifier::external_body]
fn insert_name(set: &mut IndexSet<String>, name: String) -> (inserted: bool)
    ensures
        index_set_items(*old(set)).contains(name@) ==> !inserted && index_set_items(*final(set))
            == index_set_items(*old(set)),
        !index_set_items(*old(set)).contains(name@) ==> inserted && index_set_items(*final(set))
            == index_set_items(*old(set)).push(name@),
{
    set.insert(name)
}

/// Calls `IndexSet::len`. Trusted claim: the number of names the set holds.
#[verifier::external_body]
fn name_count(set: &IndexSet<String>) -> (count: usize)
    ensures
        count == index_set_items(*set).len(),
{
    set.len()
}

/// Calls `IndexSet::get_index` at a position below the length, where it
/// gives `Some`. Trusted claim: the name at that position in insertion order.
#[verifier::external_body]
fn name_at(set: &IndexSet<String>, index: usize) -> (name: &String)
    requires
        index < index_set_items(*set).len(),
    ensures
        name@ == index_set_items(*set)[index as int],
{
    set.get_index(index).unwrap()
}

/// Whether `char::is_numeric` holds of a character outside ASCII (a Unicode
/// number).
pub uninterp spec fn unicode_numeric(c: char) -> bool;

/// Whether `char::is_alphanumeric` holds of a character outside ASCII (a
/// Unicode letter or number).
pub uninterp spec fn unicode_alphanumeric(c: char) -> bool;

/// Whether a character is numeric: in ASCII the digits, beyond it the
/// Unicode numbers.
pub open spec fn numeric_char(c: char) -> bool {
    if c <= '\x7f' {
        '0' <= c <= '9'
    } else {
        unicode_numeric(c)
    }
}

/// Whether a character is alphanumeric: in ASCII the letters and digits,
/// beyond it the Unicode letters and numbers.
pub open spec fn alphanumeric_char(c: char) -> bool {
    if c <= '\x7f' {
        '0' <= c <= '9' || 'a' <= c <= 'z' || 'A' <= c <= 'Z'
    } else {
        unicode_alphanumeric(c)
    }
}

/// Calls `char::is_numeric`. Trusted claim, as std documents and implements
/// it: an ASCII character is numeric exactly when it is a digit; beyond ASCII
/// the result is what `unicode_numeric` names.
#[verifier::external_body]
fn is_numeric(c: char) -> (numeric: bool)
    ensures
        numeric == if c <= '\x7f' {
            '0' <= c <= '9'
        } else {
            unicode_numeric(c)
        },
{
    c.is_numeric()
}

/// Calls `char::is_alphanumeric`. Trusted claim, as std documents and
/// implements it: an ASCII character is alphanumeric exactly when it is a
/// letter or a digit; beyond ASCII the result is what `unicode_alphanumeric`
/// names.
#[verifier::external_body]
fn is_alphanumeric(c: char) -> (alphanumeric: bool)
    ensures
        alphanumeric == if c <= '\x7f' {
            '0' <= c <= '9' || 'a' <= c <= 'z' || 'A' <= c <= 'Z'
        } else {
            unicode_alphanumeric(c)
        },
{
    c.is_alphanumeric()
}

/// Calls `str::trim`. Trusted claim, as std documents it: the result is the
/// text without its leading and trailing characters of the Unicode
/// `White_Space` property.
#[verifier::external_body]
fn trim_whitespace(s: &str) -> (trimmed: String)
    ensures
        trimmed@ == trim_white_space(s@),
{
    s.trim().to_string()
}

/// Which kind of parameter a name belongs to.
#[derive(Debug, Clone, Copy, PartialEq, Eq)]
pub enum ParamKind {
    /// A catch-all parameter (`:..name`)
    CatchAll,
    /// An ordinary parameter (`:name`)
    Parameter,
}

/// Why a route path is not accepted.
#[derive(Debug, Clone, PartialEq, Eq)]
pub enum RouteSyntaxError {
    /// The path does not start with '/'
    MissingLeadingSlash { path: String },
    /// The path ends with '/' and is not the root
    TrailingSlash { path: String },
    /// The path holds "//"
    DoubleSlash { path: String },
    /// A segment follows a catch-all parameter
    CatchAllNotLast,
    /// A segment holds a space
    Whitespace,
    /// A segment holds '*'
    Wildcard,
    /// A segment holds '?'
    QueryInPath,
    /// A parameter name is empty
    EmptyName { kind: ParamKind },
    /// A parameter name starts with a numeric character
    NumericStart { kind: ParamKind },
    /// A parameter name holds a character that is neither alphanumeric nor '_'
    InvalidNameChars { kind: ParamKind },
    /// A parameter name occurs twice
    DuplicateParameter,
    /// A query parameter name holds ':' or '?'
    InvalidQueryParameter,
    /// A query parameter name occurs twice, or is also a path parameter
    DuplicateQueryParameter { name: String },
}

/// A route syntax error with its texts as character sequences.
pub enum RouteSyntaxErrorView {
    MissingLeadingSlash { path: Seq<char> },
    TrailingSlash { path: Seq<char> },
    DoubleSlash { path: Seq<char> },
    CatchAllNotLast,
    Whitespace,
    Wildcard,
    QueryInPath,
    EmptyName { kind: ParamKind },
    NumericStart { kind: ParamKind },
    InvalidNameChars { kind: ParamKind },
    DuplicateParameter,
    InvalidQueryParameter,
    DuplicateQueryParameter { name: Seq<char> },
}

impl View for RouteSyntaxError {
    type V = RouteSyntaxErrorView;

    open spec fn view(&self) -> RouteSyntaxErrorView {
        match self {
            RouteSyntaxError::MissingLeadingSlash { path } =>
                RouteSyntaxErrorView::MissingLeadingSlash { path: path@ },
            RouteSyntaxError::TrailingSlash { path } => RouteSyntaxErrorView::TrailingSlash {
                path: path@,
            },
            RouteSyntaxError::DoubleSlash { path } => RouteSyntaxErrorView::DoubleSlash {
                path: path@,
            },
            RouteSyntaxError::CatchAllNotLast => RouteSyntaxErrorView::CatchAllNotLast,
            RouteSyntaxError::Whitespace => RouteSyntaxErrorView::Whitespace,
            RouteSyntaxError::Wildcard => RouteSyntaxErrorView::Wildcard,
            RouteSyntaxError::QueryInPath => RouteSyntaxErrorView::QueryInPath,
            RouteSyntaxError::EmptyName { kind } => RouteSyntaxErrorView::EmptyName { kind: *kind },
            RouteSyntaxError::NumericStart { kind } => RouteSyntaxErrorView::NumericStart {
                kind: *kind,
            },
            RouteSyntaxError::InvalidNameChars { kind } => RouteSyntaxErrorView::InvalidNameChars {
                kind: *kind,
            },
            RouteSyntaxError::DuplicateParameter => RouteSyntaxErrorView::DuplicateParameter,
            RouteSyntaxError::InvalidQueryParameter => RouteSyntaxErrorView::InvalidQueryParameter,
            RouteSyntaxError::DuplicateQueryParameter { name } =>
                RouteSyntaxErrorView::DuplicateQueryParameter { name: name@ },
        }
    }
}

/// What is wrong with a parameter name, if anything: it must be non-empty,
/// must not start with a numeric character, and must hold only alphanumeric
/// characters and underscores.
pub open spec fn name_error(name: Seq<char>, kind: ParamKind) -> Option<RouteSyntaxErrorView> {
    if name.len() == 0 {
        Some(RouteSyntaxErrorView::EmptyName { kind })
    } else if numeric_char(name[0]) {
        Some(RouteSyntaxErrorView::NumericStart { kind })
    } else if exists|i: int|
        0 <= i < name.len() && !(alphanumeric_char(#[trigger] name[i]) || name[i] == '_') {
        Some(RouteSyntaxErrorView::InvalidNameChars { kind })
    } else {
        None
    }
}

/// Whether a segment starts with `:..`.
pub open spec fn is_catch_all(segment: Seq<char>) -> bool {
    segment.len() >= 3 && segment[0] == ':' && segment[1] == '.' && segment[2] == '.'
}

/// Whether a segment starts with `:`.
pub open spec fn is_param(segment: Seq<char>) -> bool {
    segment.len() >= 1 && segment[0] == ':'
}

/// The parameter names so far and whether a catch-all parameter was seen,
/// after one more path segment, or the error that segment raises.
pub open spec fn segment_step(
    names: Seq<Seq<char>>,
    catch_all: bool,
    segment: Seq<char>,
) -> Result<(Seq<Seq<char>>, bool), RouteSyntaxErrorView> {
    if catch_all {
        Err(RouteSyntaxErrorView::CatchAllNotLast)
    } else if segment.contains(' ') {
        Err(RouteSyntaxErrorView::Whitespace)
    } else if segment.contains('*') {
        Err(RouteSyntaxErrorView::Wildcard)
    } else if segment.contains('?') {
        Err(RouteSyntaxErrorView::QueryInPath)
    } else if is_catch_all(segment) {
        let name = segment.skip(3);
        match name_error(name, ParamKind::CatchAll) {
            Some(error) => Err(error),
            None => if names.contains(name) {
                Err(RouteSyntaxErrorView::DuplicateParameter)
            } else {
                Ok((names.push(name), true))
            },
        }
    } else if is_param(segment) {
        let name = segment.drop_first();
        match name_error(name, ParamKind::Parameter) {
            Some(error) => Err(error),
            None => if names.contains(name) {
                Err(RouteSyntaxErrorView::DuplicateParameter)
            } else {
                Ok((names.push(name), false))
            },
        }
    } else {
        Ok((names, false))
    }
}

/// Checks the path segments in order, stopping at the first error.
pub open spec fn check_segments(segments: Seq<Seq<char>>) -> Result<
    (Seq<Seq<char>>, bool),
    RouteSyntaxErrorView,
>
    decreases segments.len(),
{
    if segments.len() == 0 {
        Ok((Seq::empty(), false))
    } else {
        match check_segments(segments.drop_last()) {
            Err(error) => Err(error),
            Ok((names, catch_all)) => segment_step(names, catch_all, segments.last()),
        }
    }
}

/// The names after one more piece of the query string, or its error: empty
/// pieces are skipped, and a name is the piece without surrounding white space.
pub open spec fn query_step(names: Seq<Seq<char>>, piece: Seq<char>) -> Result<
    Seq<Seq<char>>,
    RouteSyntaxErrorView,
> {
    if piece.len() == 0 {
        Ok(names)
    } else {
        let name = trim_white_space(piece);
        if name.contains(':') || name.contains('?') {
            Err(RouteSyntaxErrorView::InvalidQueryParameter)
        } else if names.contains(name) {
            Err(RouteSyntaxErrorView::DuplicateQueryParameter { name })
        } else {
            Ok(names.push(name))
        }
    }
}

/// Checks the query pieces in order, stopping at the first error.
pub open spec fn check_query(names: Seq<Seq<char>>, pieces: Seq<Seq<char>>) -> Result<
    Seq<Seq<char>>,
    RouteSyntaxErrorView,
>
    decreases pieces.len(),
{
    if pieces.len() == 0 {
        Ok(names)
    } else {
        match check_query(names, pieces.drop_last()) {
            Err(error) => Err(error),
            Ok(so_far) => query_step(so_far, pieces.last()),
        }
    }
}

/// Whether a text holds two slashes in a row.
pub open spec fn has_double_slash(path: Seq<char>) -> bool {
    exists|i: int| 0 <= i < path.len() - 1 && #[trigger] path[i] == '/' && path[i + 1] == '/'
}

/// What checking a route path gives: the parameter names (path parameters,
/// then query parameters) and whether the path ends in a catch-all
/// parameter, or the first error found.
pub open spec fn route_syntax(full_path: Seq<char>) -> Result<
    (Seq<Seq<char>>, bool),
    RouteSyntaxErrorView,
> {
    let path = split_pieces(full_path, '?')[0];
    if !(path.len() > 0 && path[0] == '/') {
        Err(RouteSyntaxErrorView::MissingLeadingSlash { path })
    } else if path != seq!['/'] && path.last() == '/' {
        Err(RouteSyntaxErrorView::TrailingSlash { path })
    } else if has_double_slash(path) {
        Err(RouteSyntaxErrorView::DoubleSlash { path })
    } else {
        match check_segments(nonempty_pieces(path, '/')) {
            Err(error) => Err(error),
            Ok((names, catch_all)) => if full_path.contains('?') {
                match check_query(names, split_pieces(full_path.skip(path.len() as int + 1), '&')) {
                    Err(error) => Err(error),
                    Ok(all_names) => Ok((all_names, catch_all)),
                }
            } else {
                Ok((names, catch_all))
            },
        }
    }
}

/// Validates a parameter name.
pub fn validate_param_name(name: &str, kind: ParamKind) -> (result: Result<(), RouteSyntaxError>)
    ensures
        match result {
            Ok(()) => name_error(name@, kind) is None,
            Err(error) => name_error(name@, kind) == Some(error@),
        },
{
    let chars = to_chars(name);
    let n = chars.len();
    if n == 0 {
        return Err(RouteSyntaxError::EmptyName { kind });
    }
    if is_numeric(chars[0]) {
        return Err(RouteSyntaxError::NumericStart { kind });
    }
    let mut i: usize = 0;
    while i < n
        invariant
            chars@ == name@,
            n == name@.len(),
            n > 0,
            !numeric_char(name@[0]),
            i <= n,
            forall|j: int| 0 <= j < i ==> alphanumeric_char(#[trigger] name@[j]) || name@[j] == '_',
        decreases n - i,
    {
        let c = chars[i];
        if !(is_alphanumeric(c) || c == '_') {
            assert(!(alphanumeric_char(name@[i as int]) || name@[i as int] == '_'));
            return Err(RouteSyntaxError::InvalidNameChars { kind });
        }
        i = i + 1;
    }
    Ok(())
}

/// Why a component's arguments do not fit its route's parameters.
#[derive(Debug, Clone, PartialEq, Eq)]
pub enum ConsistencyError {
    /// The route has `params` parameters and the component `args` arguments
    CountMismatch { params: usize, args: usize },
    /// No argument of the component has the parameter's name
    MissingArgument { param: String },
}

/// A consistency error with its texts as character sequences.
pub enum ConsistencyErrorView {
    CountMismatch { params: nat, args: nat },
    MissingArgument { param: Seq<char> },
}

impl View for ConsistencyError {
    type V = ConsistencyErrorView;

    open spec fn view(&self) -> ConsistencyErrorView {
        match self {
            ConsistencyError::CountMismatch { params, args } => ConsistencyErrorView::CountMismatch {
                params: *params as nat,
                args: *args as nat,
            },
            ConsistencyError::MissingArgument { param } => ConsistencyErrorView::MissingArgument {
                param: param@,
            },
        }
    }
}

/// The first parameter, in order, that no argument is named after.
pub open spec fn first_missing(params: Seq<Seq<char>>, args: Seq<Seq<char>>) -> Option<Seq<char>>
    decreases params.len(),
{
    if params.len() == 0 {
        None
    } else if !args.contains(params[0]) {
        Some(params[0])
    } else {
        first_missing(params.drop_first(), args)
    }
}

/// Whether a component's argument names fit its route's parameter names:
/// as many arguments as parameters, and an argument for each parameter.
pub open spec fn consistency(params: Seq<Seq<char>>, args: Seq<Seq<char>>) -> Result<
    (),
    ConsistencyErrorView,
> {
    if params.len() != args.len() {
        Err(ConsistencyErrorView::CountMismatch { params: params.len(), args: args.len() })
    } else {
        match first_missing(params, args) {
            Some(param) => Err(ConsistencyErrorView::MissingArgument { param }),
            None => Ok(()),
        }
    }
}

/// Checks that a component's argument names fit its route's parameter names.
pub fn validate_consistency(route_params: &IndexSet<String>, arg_names: &[String]) -> (result: Result<
    (),
    ConsistencyError,
>)
    ensures
        match result {
            Ok(()) => consistency(index_set_items(*route_params), arg_names.deep_view()) is Ok,
            Err(error) => consistency(index_set_items(*route_params), arg_names.deep_view()) == Err::<
                (),
                _,
            >(error@),
        },
{
    let ghost params = index_set_items(*route_params);
    let ghost args = arg_names.deep_view();
    let count = name_count(route_params);
    if count != arg_names.len() {
        return Err(ConsistencyError::CountMismatch { params: count, args: arg_names.len() });
    }
    let mut i: usize = 0;
    assert(params.skip(0) =~= params);
    while i < count
        invariant
            count == params.len(),
            params == index_set_items(*route_params),
            args == arg_names.deep_view(),
            count == args.len(),
            i <= count,
            first_missing(params, args) == first_missing(params.skip(i as int), args),
        decreases count - i,
    {
        let param = name_at(route_params, i);
        let ghost rest = params.skip(i as int);
        assert(rest[0] == param@);
        assert(rest.drop_first() =~= params.skip(i + 1));
        let n = arg_names.len();
        let mut j: usize = 0;
        let mut found = false;
        while j < n
            invariant
                n == args.len(),
                args == arg_names.deep_view(),
                j <= n,
                found ==> args.contains(param@),
                !found ==> forall|q: int| 0 <= q < j ==> args[q] != param@,
            decreases n - j,
        {
            if arg_names[j] == *param {
                assert(args[j as int] == param@);
                found = true;
            }
            j = j + 1;
        }
        if !found {
            return Err(ConsistencyError::MissingArgument { param: param.clone() });
        }
        i = i + 1;
    }
    assert(params.skip(count as int) =~= Seq::<Seq<char>>::empty());
    Ok(())
}

/// No name occurs twice.
pub open spec fn names_distinct(names: Seq<Seq<char>>) -> bool {
    forall|i: int, j: int| 0 <= i < j < names.len() ==> #[trigger] names[i] != #[trigger] names[j]
}

/// Adding a name that is not there keeps the names distinct.
proof fn lemma_push_distinct(names: Seq<Seq<char>>, name: Seq<char>)
    requires
        names_distinct(names),
        !names.contains(name),
    ensures
        names_distinct(names.push(name)),
{
    let pushed = names.push(name);
    assert forall|i: int, j: int| 0 <= i < j < pushed.len() implies #[trigger] pushed[i]
        != #[trigger] pushed[j] by {
        assert(pushed[i] == names[i]);
        if j == names.len() {
            if names[i] == name {
                assert(names.contains(name));
            }
        } else {
            assert(pushed[j] == names[j]);
        }
    }
}

/// Checking segments collects distinct names.
proof fn lemma_check_segments_distinct(segments: Seq<Seq<char>>)
    ensures
        check_segments(segments) matches Ok((names, _)) ==> names_distinct(names),
    decreases segments.len(),
{
    if segments.len() > 0 {
        lemma_check_segments_distinct(segments.drop_last());
        if let Ok((names, catch_all)) = check_segments(segments.drop_last()) {
            let segment = segments.last();
            if is_catch_all(segment) && !names.contains(segment.skip(3)) {
                lemma_push_distinct(names, segment.skip(3));
            }
            if is_param(segment) && !names.contains(segment.drop_first()) {
                lemma_push_distinct(names, segment.drop_first());
            }
        }
    }
}

/// Checking query pieces keeps the names distinct.
proof fn lemma_check_query_distinct(names: Seq<Seq<char>>, pieces: Seq<Seq<char>>)
    requires
        names_distinct(names),
    ensures
        check_query(names, pieces) matches Ok(all) ==> names_distinct(all),
    decreases pieces.len(),
{
    if pieces.len() > 0 {
        lemma_check_query_distinct(names, pieces.drop_last());
        if let Ok(so_far) = check_query(names, pieces.drop_last()) {
            let name = trim_white_space(pieces.last());
            if pieces.last().len() > 0 && !so_far.contains(name) {
                lemma_push_distinct(so_far, name);
            }
        }
    }
}

/// An accepted route path has a leading slash, no trailing slash unless it
/// is the root, no doubled slashes, and parameter names that are all
/// distinct (query parameters included).
pub proof fn lemma_accepted_route_form(full_path: Seq<char>)
    ensures
        route_syntax(full_path) matches Ok((names, _)) ==> {
            let path = split_pieces(full_path, '?')[0];
            &&& path.len() > 0 && path[0] == '/'
            &&& path.last() == '/' ==> path == seq!['/']
            &&& !has_double_slash(path)
            &&& names_distinct(names)
        },
{
    let path = split_pieces(full_path, '?')[0];
    lemma_check_segments_distinct(nonempty_pieces(path, '/'));
    if let Ok((names, catch_all)) = check_segments(nonempty_pieces(path, '/')) {
        if full_path.contains('?') {
            lemma_check_query_distinct(names, split_pieces(full_path.skip(path.len() as int + 1), '&'));
        }
    }
}

/// Whether a path segment is a plain static segment: non-empty, not a
/// parameter (no leading `:`), and free of `/`, space, `*` and `?`.
pub open spec fn plain_static_segment(segment: Seq<char>) -> bool {
    &&& segment.len() > 0
    &&& segment[0] != ':'
    &&& !segment.contains('/')
    &&& !segment.contains(' ')
    &&& !segment.contains('*')
    &&& !segment.contains('?')
}

/// A static segment is only refused for a space, `*` or `?`: any other
/// segment that is not a parameter is accepted and adds no name, whatever
/// names were collected before.
pub proof fn lemma_static_segment_accepted(names: Seq<Seq<char>>, segment: Seq<char>)
    requires
        plain_static_segment(segment),
    ensures
        segment_step(names, false, segment) == Ok::<_, RouteSyntaxErrorView>((names, false)),
{
}

/// A route path made only of static segments (such as `/about-us`,
/// `/robots.txt` or `/blog/2024`) is accepted with no parameter names and
/// no catch-all parameter.
pub proof fn lemma_static_path_accepted(segments: Seq<Seq<char>>)
    requires
        forall|i: int| 0 <= i < segments.len() ==> plain_static_segment(#[trigger] segments[i]),
    ensures
        route_syntax(url_of_segments(segments)) == Ok::<_, RouteSyntaxErrorView>(
            (Seq::<Seq<char>>::empty(), false),
        ),
{
    let path = url_of_segments(segments);
    assert forall|i: int| 0 <= i < segments.len() implies (#[trigger] segments[i]).len() > 0
        && !segments[i].contains('/') by {
        assert(plain_static_segment(segments[i]));
    }
    lemma_slash_joined_pieces(segments);
    assert(!path.contains('?')) by {
        if path.contains('?') {
            let k = choose|k: int| 0 <= k < segments.len() && segments[k].contains('?');
            assert(plain_static_segment(segments[k]));
        }
    }
    crate::text::lemma_split_without_sep(path, '?');
    assert(split_pieces(path, '?')[0] == path);
    assert(!has_double_slash(path));
    lemma_static_segments_checked(segments);
}

/// Whether a parameter name is made of ASCII letters, digits and
/// underscores and does not start with a digit.
pub open spec fn plain_param_name(name: Seq<char>) -> bool {
    &&& name.len() > 0
    &&& !('0' <= name[0] <= '9')
    &&& forall|i: int|
        0 <= i < name.len() ==> ('a' <= #[trigger] name[i] <= 'z' || 'A' <= name[i] <= 'Z' || '0'
            <= name[i] <= '9' || name[i] == '_')
}

/// Whether a path segment is a plain static segment or `:` followed by a
/// plain parameter name.
pub open spec fn plain_segment(segment: Seq<char>) -> bool {
    plain_static_segment(segment) || (segment.len() > 0 && segment[0] == ':' && plain_param_name(
        segment.drop_first(),
    ))
}

/// The names of the `:` segments, in order.
pub open spec fn param_segment_names(segments: Seq<Seq<char>>) -> Seq<Seq<char>>
    decreases segments.len(),
{
    if segments.len() == 0 {
        Seq::empty()
    } else {
        let init = param_segment_names(segments.drop_last());
        if segments.last()[0] == ':' {
            init.push(segments.last().drop_first())
        } else {
            init
        }
    }
}

/// Checking plain segments with distinct parameter names collects those
/// names in order.
proof fn lemma_plain_segments_checked(segments: Seq<Seq<char>>)
    requires
        forall|i: int| 0 <= i < segments.len() ==> plain_segment(#[trigger] segments[i]),
        param_segment_names(segments).no_duplicates(),
    ensures
        check_segments(segments) == Ok::<_, RouteSyntaxErrorView>(
            (param_segment_names(segments), false),
        ),
    decreases segments.len(),
{
    if segments.len() > 0 {
        let init = segments.drop_last();
        let seg = segments.last();
        assert forall|i: int| 0 <= i < init.len() implies plain_segment(#[trigger] init[i]) by {
            assert(plain_segment(segments[i]));
        }
        assert(plain_segment(segments[segments.len() - 1]));
        let names = param_segment_names(init);
        if seg[0] == ':' {
            let name = seg.drop_first();
            assert(param_segment_names(segments) == names.push(name));
            assert forall|a: int, b: int| 0 <= a < b < names.len() implies names[a] != names[b] by {
                assert(names.push(name)[a] == names[a] && names.push(name)[b] == names[b]);
            }
            lemma_plain_segments_checked(init);
            assert(!names.contains(name)) by {
                if names.contains(name) {
                    let k = choose|k: int| 0 <= k < names.len() && names[k] == name;
                    assert(names.push(name)[k] == names.push(name)[names.len() as int]);
                }
            }
            assert(plain_param_name(name));
            assert(forall|i: int| 0 <= i < name.len() ==> name[i] == seg[i + 1]);
            assert(!seg.contains(' ') && !seg.contains('*') && !seg.contains('?')) by {
                assert forall|c: char| c == ' ' || c == '*' || c == '?' implies !seg.contains(c) by {
                    if seg.contains(c) {
                        let m = choose|m: int| 0 <= m < seg.len() && seg[m] == c;
                        assert(m > 0);
                        assert(name[m - 1] == c);
                    }
                }
            }
            assert(!is_catch_all(seg)) by {
                if is_catch_all(seg) {
                    assert(name[0] == '.');
                }
            }
            assert(name_error(name, ParamKind::Parameter) is None) by {
                assert(!numeric_char(name[0]));
                assert forall|i: int| 0 <= i < name.len() implies alphanumeric_char(#[trigger] name[i])
                    || name[i] == '_' by {
                    assert(plain_param_name(name));
                }
            }
        } else {
            assert(param_segment_names(segments) == names);
            lemma_plain_segments_checked(init);
            assert(plain_static_segment(seg));
            lemma_static_segment_accepted(names, seg);
        }
    }
}

/// A route path made of static segments and `:` parameters with plain,
/// distinct names (such as `/user/:id/post/:post_id`) is accepted, with the
/// parameter names in the order they appear and no catch-all parameter.
pub proof fn lemma_plain_path_accepted(segments: Seq<Seq<char>>)
    requires
        forall|i: int| 0 <= i < segments.len() ==> plain_segment(#[trigger] segments[i]),
        param_segment_names(segments).no_duplicates(),
    ensures
        route_syntax(url_of_segments(segments)) == Ok::<_, RouteSyntaxErrorView>(
            (param_segment_names(segments), false),
        ),
{
    let path = url_of_segments(segments);
    assert forall|i: int| 0 <= i < segments.len() implies (#[trigger] segments[i]).len() > 0
        && !segments[i].contains('/') && !segments[i].contains('?') by {
        let seg = segments[i];
        assert(plain_segment(seg));
        if !plain_static_segment(seg) {
            let name = seg.drop_first();
            assert forall|c: char| c == '/' || c == '?' implies !seg.contains(c) by {
                if seg.contains(c) {
                    let m = choose|m: int| 0 <= m < seg.len() && seg[m] == c;
                    assert(m > 0);
                    assert(name[m - 1] == c);
                }
            }
        }
    }
    lemma_slash_joined_pieces(segments);
    assert(!path.contains('?')) by {
        if path.contains('?') {
            let k = choose|k: int| 0 <= k < segments.len() && segments[k].contains('?');
            assert(!segments[k].contains('?'));
        }
    }
    crate::text::lemma_split_without_sep(path, '?');
    assert(split_pieces(path, '?')[0] == path);
    assert(!has_double_slash(path));
    lemma_plain_segments_checked(segments);
}

/// Checking static segments only collects no names.
proof fn lemma_static_segments_checked(segments: Seq<Seq<char>>)
    requires
        forall|i: int| 0 <= i < segments.len() ==> plain_static_segment(#[trigger] segments[i]),
    ensures
        check_segments(segments) == Ok::<_, RouteSyntaxErrorView>((Seq::<Seq<char>>::empty(), false)),
    decreases segments.len(),
{
    if segments.len() > 0 {
        assert forall|i: int| 0 <= i < segments.len() - 1 implies plain_static_segment(
            #[trigger] segments.drop_last()[i],
        ) by {
            assert(plain_static_segment(segments[i]));
        }
        lemma_static_segments_checked(segments.drop_last());
        assert(plain_static_segment(segments[segments.len() - 1]));
        lemma_static_segment_accepted(Seq::empty(), segments.last());
    }
}

/// Once a prefix of the segments fails, all of them fail with the same error.
proof fn lemma_check_segments_fails(segments: Seq<Seq<char>>, k: int)
    requires
        0 <= k <= segments.len(),
        check_segments(segments.take(k)) is Err,
    ensures
        check_segments(segments) == check_segments(segments.take(k)),
    decreases segments.len(),
{
    if k == segments.len() {
        assert(segments.take(k) =~= segments);
    } else {
        assert(segments.drop_last().take(k) =~= segments.take(k));
        lemma_check_segments_fails(segments.drop_last(), k);
    }
}

/// Once a prefix of the query pieces fails, all of them fail with the same error.
proof fn lemma_check_query_fails(names: Seq<Seq<char>>, pieces: Seq<Seq<char>>, k: int)
    requires
        0 <= k <= pieces.len(),
        check_query(names, pieces.take(k)) is Err,
    ensures
        check_query(names, pieces) == check_query(names, pieces.take(k)),
    decreases pieces.len(),
{
    if k == pieces.len() {
        assert(pieces.take(k) =~= pieces);
    } else {
        assert(pieces.drop_last().take(k) =~= pieces.take(k));
        lemma_check_query_fails(names, pieces.drop_last(), k);
    }
}

/// Records a parameter name unless it was seen before.
fn add_param_name(names: &mut IndexSet<String>, name: String) -> (result: Result<(), RouteSyntaxError>)
    ensures
        index_set_items(*old(names)).contains(name@) ==> result == Err::<(), RouteSyntaxError>(
            RouteSyntaxError::DuplicateParameter,
        ),
        !index_set_items(*old(names)).contains(name@) ==> result is Ok && index_set_items(
            *final(names),
        ) == index_set_items(*old(names)).push(name@),
{
    if insert_name(names, name) {
        Ok(())
    } else {
        Err(RouteSyntaxError::DuplicateParameter)
    }
}

/// Checks one path segment, recording its parameter name.
fn check_segment(names: &mut IndexSet<String>, catch_all: bool, segment: &String) -> (result: Result<
    bool,
    RouteSyntaxError,
>)
    ensures
        match result {
            Ok(now_catch_all) => segment_step(index_set_items(*old(names)), catch_all, segment@)
                == Ok::<_, RouteSyntaxErrorView>((index_set_items(*final(names)), now_catch_all)),
            Err(error) => segment_step(index_set_items(*old(names)), catch_all, segment@) == Err::<
                (Seq<Seq<char>>, bool),
                _,
            >(error@),
        },
{
    if catch_all {
        return Err(RouteSyntaxError::CatchAllNotLast);
    }
    let text = segment.as_str();
    let chars = to_chars(text);
    let n = chars.len();
    if has_char(&chars, ' ') {
        return Err(RouteSyntaxError::Whitespace);
    }
    if has_char(&chars, '*') {
        return Err(RouteSyntaxError::Wildcard);
    }
    if has_char(&chars, '?') {
        return Err(RouteSyntaxError::QueryInPath);
    }
    if n >= 3 && chars[0] == ':' && chars[1] == '.' && chars[2] == '.' {
        let rest = String::from_str(text.substring_char(3, n));
        assert(rest@ =~= segment@.skip(3));
        validate_param_name(rest.as_str(), ParamKind::CatchAll)?;
        add_param_name(names, rest)?;
        Ok(true)
    } else if n >= 1 && chars[0] == ':' {
        let param = String::from_str(text.substring_char(1, n));
        assert(param@ =~= segment@.drop_first());
        validate_param_name(param.as_str(), ParamKind::Parameter)?;
        add_param_name(names, param)?;
        Ok(false)
    } else {
        Ok(false)
    }
}

/// Checks one piece of the query string, recording its parameter name.
fn check_query_piece(names: &mut IndexSet<String>, piece: &String) -> (result: Result<
    (),
    RouteSyntaxError,
>)
    ensures
        match result {
            Ok(()) => query_step(index_set_items(*old(names)), piece@) == Ok::<
                _,
                RouteSyntaxErrorView,
            >(index_set_items(*final(names))),
            Err(error) => query_step(index_set_items(*old(names)), piece@) == Err::<
                Seq<Seq<char>>,
                _,
            >(error@),
        },
{
    let text = piece.as_str();
    if text.unicode_len() == 0 {
        return Ok(());
    }
    let name = trim_whitespace(text);
    let chars = to_chars(name.as_str());
    if has_char(&chars, ':') || has_char(&chars, '?') {
        return Err(RouteSyntaxError::InvalidQueryParameter);
    }
    let duplicate = RouteSyntaxError::DuplicateQueryParameter { name: name.clone() };
    if insert_name(names, name) {
        Ok(())
    } else {
        Err(duplicate)
    }
}

/// Parses and validates a route path: checks its form, and collects the
/// names of its path parameters and then of its query parameters, and
/// whether the path ends in a catch-all parameter.
pub fn parse_and_validate_route(full_path: &str) -> (result: Result<
    (IndexSet<String>, bool),
    RouteSyntaxError,
>)
    ensures
        match result {
            Ok((names, catch_all)) => route_syntax(full_path@) == Ok::<_, RouteSyntaxErrorView>(
                (index_set_items(names), catch_all),
            ),
            Err(error) => route_syntax(full_path@) == Err::<(Seq<Seq<char>>, bool), _>(error@),
        },
{
    let (path, query) = split_once(full_path, '?');
    let path_chars = to_chars(path.as_str());
    let n = path_chars.len();
    if !(n > 0 && path_chars[0] == '/') {
        return Err(RouteSyntaxError::MissingLeadingSlash { path });
    }
    let root = n == 1;
    assert(root <==> path@ == seq!['/']) by {
        if path@ == seq!['/'] {
            assert(path@.len() == 1);
        }
        if n == 1 {
            assert(path@ =~= seq!['/']);
        }
    }
    if !root && path_chars[n - 1] == '/' {
        return Err(RouteSyntaxError::TrailingSlash { path });
    }
    let mut i: usize = 0;
    while i + 1 < n
        invariant
            path_chars@ == path@,
            n == path@.len(),
            path@ == split_pieces(full_path@, '?')[0],
            n > 0 && path@[0] == '/',
            !(path@ != seq!['/'] && path@.last() == '/'),
            i + 1 <= n,
            forall|j: int| 0 <= j < i ==> !(#[trigger] path@[j] == '/' && path@[j + 1] == '/'),
        decreases n - i,
    {
        if path_chars[i] == '/' && path_chars[i + 1] == '/' {
            assert(path@[i as int] == '/' && path@[i + 1] == '/');
            return Err(RouteSyntaxError::DoubleSlash { path });
        }
        i = i + 1;
    }
    assert(!has_double_slash(path@));
    let segments = split_nonempty(path.as_str(), '/');
    let ghost segs = segments.deep_view();
    let mut names = new_name_set();
    let mut catch_all = false;
    let count = segments.len();
    let mut k: usize = 0;
    assert(segs.take(0) =~= Seq::<Seq<char>>::empty());
    while k < count
        invariant
            count == segs.len(),
            segs == segments.deep_view(),
            segs == nonempty_pieces(path@, '/'),
            k <= count,
            check_segments(segs.take(k as int)) == Ok::<_, RouteSyntaxErrorView>(
                (index_set_items(names), catch_all),
            ),
            route_syntax(full_path@) == match check_segments(segs) {
                Err(error) => Err(error),
                Ok((names, catch_all)) => if full_path@.contains('?') {
                    match check_query(names, split_pieces(full_path@.skip(path@.len() as int + 1), '&')) {
                        Err(error) => Err(error),
                        Ok(all_names) => Ok((all_names, catch_all)),
                    }
                } else {
                    Ok((names, catch_all))
                },
            },
        decreases count - k,
    {
        assert(segs.take(k + 1).drop_last() =~= segs.take(k as int));
        assert(segs.take(k + 1).last() == segments[k as int]@);
        match check_segment(&mut names, catch_all, &segments[k]) {
            Ok(now_catch_all) => {
                catch_all = now_catch_all;
            },
            Err(error) => {
                proof {
                    lemma_check_segments_fails(segs, k + 1);
                }
                return Err(error);
            },
        }
        k = k + 1;
    }
    assert(segs.take(count as int) =~= segs);
    match query {
        None => Ok((names, catch_all)),
        Some(query) => {
            let pieces = split_all(query.as_str(), '&');
            let ghost qs = pieces.deep_view();
            let ghost path_names = index_set_items(names);
            let m = pieces.len();
            let mut q: usize = 0;
            assert(qs.take(0) =~= Seq::<Seq<char>>::empty());
            while q < m
                invariant
                    m == qs.len(),
                    qs == pieces.deep_view(),
                    q <= m,
                    check_query(path_names, qs.take(q as int)) == Ok::<_, RouteSyntaxErrorView>(
                        index_set_items(names),
                    ),
                    route_syntax(full_path@) == match check_query(path_names, qs) {
                        Err(error) => Err(error),
                        Ok(all_names) => Ok((all_names, catch_all)),
                    },
                decreases m - q,
            {
                assert(qs.take(q + 1).drop_last() =~= qs.take(q as int));
                assert(qs.take(q + 1).last() == pieces[q as int]@);
                match check_query_piece(&mut names, &pieces[q]) {
                    Ok(()) => {},
                    Err(error) => {
                        proof {
                            lemma_check_query_fails(path_names, qs, q + 1);
                        }
                        return Err(error);
                    },
                }
                q = q + 1;
            }
            assert(qs.take(m as int) =~= qs);
            Ok((names, catch_all))
        },
    }
}

/// How a component argument is filled in from the matched parameters.
#[derive(Debug, Clone, Copy, PartialEq, Eq)]
pub enum ArgumentSource {
    /// From the route's catch-all parameter
    CatchAll,
    /// From an optional parameter: absent when the parameter is absent
    Optional,
    /// From a parameter that must be present
    Required,
}

/// How the argument named `name` is filled in: from the catch-all parameter
/// when the route ends in one and it is the last parameter name, else as an
/// optional argument when its type is an `Option`, else as a required one.
pub open spec fn argument_source_of(
    name: Seq<char>,
    optional: bool,
    params: Seq<Seq<char>>,
    catch_all: bool,
) -> ArgumentSource {
    if catch_all && params.len() > 0 && params.last() == name {
        ArgumentSource::CatchAll
    } else if optional {
        ArgumentSource::Optional
    } else {
        ArgumentSource::Required
    }
}

/// Without a catch-all parameter, an argument is optional exactly when its
/// type is an `Option` and required otherwise, whatever its name and its
/// position among the route's parameter names (the last one included).
/// With one, the argument named like the last parameter name takes the
/// catch-all, and every other argument is again decided by its type alone.
pub proof fn lemma_argument_source_by_type(
    name: Seq<char>,
    optional: bool,
    params: Seq<Seq<char>>,
    catch_all: bool,
)
    ensures
        !catch_all ==> (argument_source_of(name, optional, params, catch_all)
            == ArgumentSource::Optional <==> optional),
        !catch_all ==> (argument_source_of(name, optional, params, catch_all)
            == ArgumentSource::Required <==> !optional),
        catch_all && params.len() > 0 && params[params.len() - 1] == name ==> argument_source_of(
            name,
            optional,
            params,
            catch_all,
        ) == ArgumentSource::CatchAll,
        !(params.len() > 0 && params[params.len() - 1] == name) ==> (argument_source_of(
            name,
            optional,
            params,
            catch_all,
        ) == ArgumentSource::Optional <==> optional) && (argument_source_of(
            name,
            optional,
            params,
            catch_all,
        ) == ArgumentSource::Required <==> !optional),
{
}

/// Decides how a component argument is filled in from the route's
/// parameters.
pub fn argument_source(
    arg_name: &str,
    is_option: bool,
    route_params: &IndexSet<String>,
    contains_catch_all: bool,
) -> (source: ArgumentSource)
    ensures
        source == argument_source_of(
            arg_name@,
            is_option,
            index_set_items(*route_params),
            contains_catch_all,
        ),
{
    if contains_catch_all {
        let count = name_count(route_params);
        if count > 0 {
            let last = name_at(route_params, count - 1);
            let name = String::from_str(arg_name);
            if *last == name {
                return ArgumentSource::CatchAll;
            }
        }
    }
    if is_option {
        ArgumentSource::Optional
    } else {
        ArgumentSource::Required
    }
}

/// Why a route path of a component is refused.
#[derive(Debug, Clone, PartialEq, Eq)]
pub enum RouteCheckError {
    /// The path breaks a syntax rule
    Syntax(RouteSyntaxError),
    /// The path's parameters do not fit the component's arguments
    Consistency(ConsistencyError),
}

/// A route check error by its views.
pub enum RouteCheckErrorView {
    Syntax(RouteSyntaxErrorView),
    Consistency(ConsistencyErrorView),
}

impl View for RouteCheckError {
    type V = RouteCheckErrorView;

    open spec fn view(&self) -> RouteCheckErrorView {
        match self {
            RouteCheckError::Syntax(error) => RouteCheckErrorView::Syntax(error@),
            RouteCheckError::Consistency(error) => RouteCheckErrorView::Consistency(error@),
        }
    }
}

/// What checking one path of a component gives: its parameter names and
/// whether it ends in a catch-all parameter, once its syntax is accepted and
/// its parameters fit the arguments.
pub open spec fn path_check(path: Seq<char>, args: Seq<Seq<char>>) -> Result<
    (Seq<Seq<char>>, bool),
    RouteCheckErrorView,
> {
    match route_syntax(path) {
        Err(error) => Err(RouteCheckErrorView::Syntax(error)),
        Ok((names, catch_all)) => match consistency(names, args) {
            Err(error) => Err(RouteCheckErrorView::Consistency(error)),
            Ok(()) => Ok((names, catch_all)),
        },
    }
}

/// The first redirect path, from position `k` on, that fails its check,
/// with its position and error.
pub open spec fn redirect_failure(
    redirects: Seq<Seq<char>>,
    args: Seq<Seq<char>>,
    k: int,
) -> Option<(int, RouteCheckErrorView)>
    decreases redirects.len() - k,
{
    if k < 0 || k >= redirects.len() {
        None
    } else {
        match path_check(redirects[k], args) {
            Err(error) => Some((k, error)),
            Ok(_) => redirect_failure(redirects, args, k + 1),
        }
    }
}

/// Checks a component's route path and then each of its redirect paths, in
/// order. Gives the route path's parameter names and whether it ends in a
/// catch-all parameter, or the first failure with the position of the path
/// that failed: 0 for the route path, `k + 1` for the redirect at `k`.
pub fn check_route_paths(full_path: &str, redirects: &[String], arg_names: &[String]) -> (result:
    Result<(IndexSet<String>, bool), (usize, RouteCheckError)>)
    ensures
        match result {
            Ok((names, catch_all)) => path_check(full_path@, arg_names.deep_view()) == Ok::<
                _,
                RouteCheckErrorView,
            >((index_set_items(names), catch_all)) && redirect_failure(
                redirects.deep_view(),
                arg_names.deep_view(),
                0,
            ) is None,
            Err((position, error)) => if position == 0 {
                path_check(full_path@, arg_names.deep_view()) == Err::<(Seq<Seq<char>>, bool), _>(
                    error@,
                )
            } else {
                path_check(full_path@, arg_names.deep_view()) is Ok && redirect_failure(
                    redirects.deep_view(),
                    arg_names.deep_view(),
                    0,
                ) == Some((position - 1, error@))
            },
        },
{
    let ghost args = arg_names.deep_view();
    let ghost rs = redirects.deep_view();
    let (names, catch_all) = match parse_and_validate_route(full_path) {
        Ok(found) => found,
        Err(error) => {
            return Err((0, RouteCheckError::Syntax(error)));
        },
    };
    match validate_consistency(&names, arg_names) {
        Ok(()) => {},
        Err(error) => {
            return Err((0, RouteCheckError::Consistency(error)));
        },
    }
    let n = redirects.len();
    let mut i: usize = 0;
    while i < n
        invariant
            n == rs.len(),
            rs == redirects.deep_view(),
            args == arg_names.deep_view(),
            i <= n,
            redirect_failure(rs, args, 0) == redirect_failure(rs, args, i as int),
            path_check(full_path@, args) == Ok::<_, RouteCheckErrorView>(
                (index_set_items(names), catch_all),
            ),
        decreases n - i,
    {
        assert(rs[i as int] == redirects[i as int]@);
        match parse_and_validate_route(redirects[i].as_str()) {
            Ok((redirect_names, _)) => {
                match validate_consistency(&redirect_names, arg_names) {
                    Ok(()) => {},
                    Err(error) => {
                        return Err((i + 1, RouteCheckError::Consistency(error)));
                    },
                }
            },
            Err(error) => {
                return Err((i + 1, RouteCheckError::Syntax(error)));
            },
        }
        i = i + 1;
    }
    Ok((names, catch_all))
}

} // verus!
