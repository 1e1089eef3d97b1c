//! Errors of route validation and their messages.

use vstd::prelude::*;

verus! {

/// Errors that can occur during route validation and registration
#[derive(Debug, Clone, PartialEq, Eq)]
pub enum RouterError {
    /// Multiple routes are registered with the same path
    DuplicateRoute { path: String, first_component: String, second_component: String },
    /// No routes have been registered
    NoRoutesRegistered,
    /// Route path is invalid
    InvalidRoutePath { path: String, reason: String },
    /// Two routes of the same priority can match the same URL
    AmbiguousRoutes { path_a: String, component_a: String, path_b: String, component_b: String },
}

/// A router error with its texts as character sequences.
pub enum RouterErrorView {
    DuplicateRoute { path: Seq<char>, first_component: Seq<char>, second_component: Seq<char> },
    NoRoutesRegistered,
    InvalidRoutePath { path: Seq<char>, reason: Seq<char> },
    AmbiguousRoutes {
        path_a: Seq<char>,
        component_a: Seq<char>,
        path_b: Seq<char>,
        component_b: Seq<char>,
    },
}

impl View for RouterError {
    type V = RouterErrorView;

    open spec fn view(&self) -> RouterErrorView {
        match self {
            RouterError::DuplicateRoute { path, first_component, second_component } =>
                RouterErrorView::DuplicateRoute {
                path: path@,
                first_component: first_component@,
                second_component: second_component@,
            },
            RouterError::NoRoutesRegistered => RouterErrorView::NoRoutesRegistered,
            RouterError::InvalidRoutePath { path, reason } => RouterErrorView::InvalidRoutePath {
                path: path@,
                reason: reason@,
            },
            RouterError::AmbiguousRoutes { path_a, component_a, path_b, component_b } =>
                RouterErrorView::AmbiguousRoutes {
                path_a: path_a@,
                component_a: component_a@,
                path_b: path_b@,
                component_b: component_b@,
            },
        }
    }
}

/// The message of a router error.
pub open spec fn error_message(error: RouterErrorView) -> Seq<char> {
    match error {
        RouterErrorView::DuplicateRoute { path, first_component, second_component } =>
            "Duplicate route detected:\nPath: '"@ + path + "'\nFirst defined in: "@ + first_component
            + "\nAlso defined in: "@ + second_component + "\nEach route path must be unique."@,
        RouterErrorView::NoRoutesRegistered =>
            "No routes have been registered.\n\nMake sure you have:\n1. Defined routes using #[route(\"/path\")]\n2. Imported all modules containing routes\n3. Called the route functions at least once (for WASM)"@,
        RouterErrorView::InvalidRoutePath { path, reason } => "Invalid route path '"@ + path
            + "': "@ + reason,
        RouterErrorView::AmbiguousRoutes { path_a, component_a, path_b, component_b } =>
            "Ambiguous routes detected:\nPath '"@ + path_a + "' in "@ + component_a
            + "\nand path '"@ + path_b + "' in "@ + component_b
            + "\nhave the same priority and can match the same URL."@,
    }
}

/// The character of a decimal digit.
pub open spec fn digit_char(digit: nat) -> char {
    if digit == 0 {
        '0'
    } else if digit == 1 {
        '1'
    } else if digit == 2 {
        '2'
    } else if digit == 3 {
        '3'
    } else if digit == 4 {
        '4'
    } else if digit == 5 {
        '5'
    } else if digit == 6 {
        '6'
    } else if digit == 7 {
        '7'
    } else if digit == 8 {
        '8'
    } else {
        '9'
    }
}

/// The decimal notation of a number, without leading zeros.
pub open spec fn decimal(n: nat) -> Seq<char>
    decreases n,
{
    if n < 10 {
        seq![digit_char(n)]
    } else {
        decimal(n / 10).push(digit_char(n % 10))
    }
}

/// One entry of the numbered error list: a newline, the position counted
/// from one, a dot, a space and the message.
pub open spec fn numbered_entry(index: nat, error: RouterErrorView) -> Seq<char> {
    "\n"@ + decimal(index + 1) + ". "@ + error_message(error)
}

/// The numbered entries of all errors, separated by newlines.
pub open spec fn numbered_list(errors: Seq<RouterErrorView>) -> Seq<char>
    decreases errors.len(),
{
    if errors.len() == 0 {
        Seq::empty()
    } else if errors.len() == 1 {
        numbered_entry(0, errors[0])
    } else {
        numbered_list(errors.drop_last()) + "\n"@ + numbered_entry(
            (errors.len() - 1) as nat,
            errors.last(),
        )
    }
}

/// The message of a collection of validation errors.
pub open spec fn validation_message(errors: Seq<RouterErrorView>) -> Seq<char> {
    "Route validation failed with "@ + decimal(errors.len()) + " error(s):\n"@ + numbered_list(
        errors,
    )
}

/// The text of one decimal digit.
fn digit_text(digit: usize) -> (text: &'static str)
    requires
        digit < 10,
    ensures
        text@ == seq![digit_char(digit as nat)],
{
    proof {
        reveal_strlit("0");
        reveal_strlit("1");
        reveal_strlit("2");
        reveal_strlit("3");
        reveal_strlit("4");
        reveal_strlit("5");
        reveal_strlit("6");
        reveal_strlit("7");
        reveal_strlit("8");
        reveal_strlit("9");
    }
    if digit == 0 {
        "0"
    } else if digit == 1 {
        "1"
    } else if digit == 2 {
        "2"
    } else if digit == 3 {
        "3"
    } else if digit == 4 {
        "4"
    } else if digit == 5 {
        "5"
    } else if digit == 6 {
        "6"
    } else if digit == 7 {
        "7"
    } else if digit == 8 {
        "8"
    } else {
        "9"
    }
}

/// Appends the decimal notation of `n`.
fn append_decimal(out: &mut String, n: usize)
    ensures
        final(out)@ == old(out)@ + decimal(n as nat),
    decreases n,
{
    if n >= 10 {
        append_decimal(out, n / 10);
    }
    out.append(digit_text(n % 10));
    assert(final(out)@ =~= old(out)@ + decimal(n as nat)) by {
        if n >= 10 {
            assert(decimal(n as nat) == decimal((n / 10) as nat).push(digit_char((n % 10) as nat)));
        }
    }
}

impl RouterError {
    /// The error's message.
    pub fn to_string(&self) -> (message: String)
        ensures
            message@ == error_message(self@),
    {
        match self {
            RouterError::DuplicateRoute { path, first_component, second_component } => {
                let mut message = String::from_str("Duplicate route detected:\nPath: '");
                message.append(path.as_str());
                message.append("'\nFirst defined in: ");
                message.append(first_component.as_str());
                message.append("\nAlso defined in: ");
                message.append(second_component.as_str());
                message.append("\nEach route path must be unique.");
                message
            },
            RouterError::NoRoutesRegistered => String::from_str(
                "No routes have been registered.\n\nMake sure you have:\n1. Defined routes using #[route(\"/path\")]\n2. Imported all modules containing routes\n3. Called the route functions at least once (for WASM)",
            ),
            RouterError::InvalidRoutePath { path, reason } => {
                let mut message = String::from_str("Invalid route path '");
                message.append(path.as_str());
                message.append("': ");
                message.append(reason.as_str());
                message
            },
            RouterError::AmbiguousRoutes { path_a, component_a, path_b, component_b } => {
                let mut message = String::from_str("Ambiguous routes detected:\nPath '");
                message.append(path_a.as_str());
                message.append("' in ");
                message.append(component_a.as_str());
                message.append("\nand path '");
                message.append(path_b.as_str());
                message.append("' in ");
                message.append(component_b.as_str());
                message.append("\nhave the same priority and can match the same URL.");
                message
            },
        }
    }
}

/// Wrapper around a vector of router errors
#[derive(Debug, Clone, PartialEq, Eq)]
pub struct RouterErrorsList(Vec<RouterError>);

impl View for RouterErrorsList {
    type V = Seq<RouterErrorView>;

    closed spec fn view(&self) -> Seq<RouterErrorView> {
        self.0@.map_values(|error: RouterError| error@)
    }
}

impl RouterErrorsList {
    /// The errors, in the order they were added.
    pub fn as_slice(&self) -> (errors: &[RouterError])
        ensures
            errors@.map_values(|error: RouterError| error@) == self@,
    {
        self.0.as_slice()
    }

    /// The number of errors.
    pub fn len(&self) -> (count: usize)
        ensures
            count == self@.len(),
    {
        self.0.len()
    }

    /// Whether there are no errors.
    pub fn is_empty(&self) -> (empty: bool)
        ensures
            empty == (self@.len() == 0),
    {
        self.0.len() == 0
    }
}

impl Default for RouterErrorsList {
    fn default() -> (list: Self)
        ensures
            list@ == Seq::<RouterErrorView>::empty(),
    {
        let list = RouterErrorsList(Vec::new());
        assert(list@ =~= Seq::<RouterErrorView>::empty());
        list
    }
}

impl From<Vec<RouterError>> for RouterErrorsList {
    fn from(errors: Vec<RouterError>) -> (list: Self)
        ensures
            list@ == errors@.map_values(|error: RouterError| error@),
    {
        RouterErrorsList(errors)
    }
}

impl vstd::std_specs::convert::FromSpecImpl<Vec<RouterError>> for RouterErrorsList {
    open spec fn obeys_from_spec() -> bool {
        true
    }

    closed spec fn from_spec(errors: Vec<RouterError>) -> Self {
        RouterErrorsList(errors)
    }
}

/// Multiple validation errors collected together
#[derive(Debug, Clone)]
pub struct ValidationErrors {
    errors_list: RouterErrorsList,
}

impl View for ValidationErrors {
    type V = Seq<RouterErrorView>;

    closed spec fn view(&self) -> Seq<RouterErrorView> {
        self.errors_list@
    }
}

impl ValidationErrors {
    /// Create a new validation error collection
    pub fn new() -> (errors: Self)
        ensures
            errors@ == Seq::<RouterErrorView>::empty(),
    {
        let errors = ValidationErrors { errors_list: RouterErrorsList(Vec::new()) };
        assert(errors@ =~= Seq::<RouterErrorView>::empty());
        errors
    }

    /// Add a new error to the collection
    pub fn add(&mut self, error: RouterError)
        ensures
            final(self)@ == old(self)@.push(error@),
    {
        let ghost before = self.errors_list.0@;
        self.errors_list.0.push(error);
        assert(self.errors_list.0@ == before.push(error));
        assert(self@ =~= old(self)@.push(error@));
    }

    /// Check if the collection is empty
    pub fn is_empty(&self) -> (empty: bool)
        ensures
            empty == (self@.len() == 0),
    {
        self.errors_list.is_empty()
    }

    /// Get the number of errors in the collection
    pub fn len(&self) -> (count: usize)
        ensures
            count == self@.len(),
    {
        self.errors_list.len()
    }

    /// Get the errors, in the order they were added
    pub fn errors(&self) -> (errors: &[RouterError])
        ensures
            errors@.map_values(|error: RouterError| error@) == self@,
    {
        self.errors_list.as_slice()
    }

    /// The numbered list of the errors' messages.
    fn build_display(&self) -> (display: String)
        ensures
            display@ == numbered_list(self@),
    {
        let errors = self.errors_list.as_slice();
        let ghost views = self@;
        let n = errors.len();
        let mut display = String::new();
        let mut i: usize = 0;
        proof {
            reveal_strlit("\n");
            reveal_strlit(". ");
        }
        assert(views.take(0) =~= Seq::<RouterErrorView>::empty());
        while i < n
            invariant
                n == views.len(),
                errors@.map_values(|error: RouterError| error@) == views,
                i <= n,
                display@ == numbered_list(views.take(i as int)),
            decreases n - i,
        {
            let ghost before = views.take(i as int);
            let ghost after = views.take(i + 1);
            assert(after.drop_last() =~= before);
            assert(after.last() == errors@[i as int]@);
            if i > 0 {
                display.append("\n");
            }
            display.append("\n");
            append_decimal(&mut display, i + 1);
            display.append(". ");
            let message = errors[i].to_string();
            display.append(message.as_str());
            proof {
                if i == 0 {
                    assert(before =~= Seq::<RouterErrorView>::empty());
                    assert(after.len() == 1);
                }
            }
            assert(display@ =~= numbered_list(after));
            i = i + 1;
        }
        assert(views.take(n as int) =~= views);
        display
    }

    /// The collection's message: the error count and the numbered messages.
    pub fn to_string(&self) -> (message: String)
        ensures
            message@ == validation_message(self@),
    {
        let mut message = String::from_str("Route validation failed with ");
        append_decimal(&mut message, self.len());
        message.append(" error(s):\n");
        let display = self.build_display();
        message.append(display.as_str());
        message
    }
}

impl Default for ValidationErrors {
    fn default() -> (errors: Self)
        ensures
            errors@ == Seq::<RouterErrorView>::empty(),
    {
        Self::new()
    }
}

} // verus!
