//! Route patterns: parsing a route path into segments, position-weighted
//! priorities, URL normalisation and matching a URL against a pattern.

use crate::params::RouteParams;
use crate::text::{
    first_piece, is_nonempty, join_with, lemma_filter_keeps_all, lemma_join_shape,
    lemma_nonempty_pieces_chars, lemma_split_chars, lemma_split_concat, lemma_split_join,
    lemma_split_nonempty, lemma_split_without_sep, nonempty_pieces, slash_joined, split_nonempty,
    split_pieces,
};
use vstd::prelude::*;

verus! {

/// A segment in a route pattern
#[derive(Debug, PartialEq, Eq, Hash)]
pub enum Segment {
    /// A static segment like "user" or "posts"
    Static(String),
    /// A parameter segment like ":id" or ":slug"
    Param(String),
}

/// What a segment is, as text.
pub enum SegmentView {
    Static(Seq<char>),
    Param(Seq<char>),
}

impl DeepView for Segment {
    type V = SegmentView;

    open spec fn deep_view(&self) -> SegmentView {
        match self {
            Segment::Static(text) => SegmentView::Static(text@),
            Segment::Param(name) => SegmentView::Param(name@),
        }
    }
}

/// The segment that a non-empty piece of a route path stands for: a leading
/// `:` makes it a parameter named by the rest of the piece.
pub open spec fn segment_of(piece: Seq<char>) -> SegmentView {
    if piece.len() > 0 && piece[0] == ':' {
        SegmentView::Param(piece.drop_first())
    } else {
        SegmentView::Static(piece)
    }
}

/// The segments of a route path: one for each non-empty piece between slashes.
pub open spec fn parse_segments(path: Seq<char>) -> Seq<SegmentView> {
    nonempty_pieces(path, '/').map_values(|piece: Seq<char>| segment_of(piece))
}

/// The score of a segment at a position of the given weight: static
/// segments count 10,000 per unit of weight, parameters 1,000.
pub open spec fn position_score(segment: SegmentView, weight: nat) -> nat {
    match segment {
        SegmentView::Static(_) => 10_000 * weight,
        SegmentView::Param(_) => 1_000 * weight,
    }
}

/// The sum of the position scores, where the segment at index `i` of `n`
/// segments has weight `n - i`.
pub open spec fn weighted_score(segments: Seq<SegmentView>) -> nat
    decreases segments.len(),
{
    if segments.len() == 0 {
        0
    } else {
        position_score(segments[0], segments.len()) + weighted_score(segments.drop_first())
    }
}

/// The priority of a pattern: its weighted score plus one per segment.
pub open spec fn priority_of(segments: Seq<SegmentView>) -> nat {
    weighted_score(segments) + segments.len()
}

/// The names of the parameter segments, in order.
pub open spec fn param_names_of(segments: Seq<SegmentView>) -> Seq<Seq<char>>
    decreases segments.len(),
{
    if segments.len() == 0 {
        Seq::empty()
    } else {
        let init = param_names_of(segments.drop_last());
        match segments.last() {
            SegmentView::Param(name) => init.push(name),
            SegmentView::Static(_) => init,
        }
    }
}

/// Whether some segment is a parameter.
pub open spec fn has_param(segments: Seq<SegmentView>) -> bool {
    exists|i: int| 0 <= i < segments.len() && segments[i] is Param
}

/// The path part of a URL: the text before the first `?`, and of that the
/// text before the first `#`.
pub open spec fn path_part(url: Seq<char>) -> Seq<char> {
    split_pieces(split_pieces(url, '?')[0], '#')[0]
}

/// The normal form of a URL: the non-empty pieces of its path part, each
/// after a single slash, or a lone slash when there are none.
pub open spec fn normalized(url: Seq<char>) -> Seq<char> {
    let pieces = nonempty_pieces(path_part(url), '/');
    if pieces.len() == 0 {
        seq!['/']
    } else {
        seq!['/'] + join_with(pieces, '/')
    }
}

/// The segments of a URL that matching compares: those of its normal form.
pub open spec fn url_segments(url: Seq<char>) -> Seq<Seq<char>> {
    nonempty_pieces(normalized(url), '/')
}

/// What `urlencoding::decode` makes of a percent-encoded text: the decoded
/// text, or `None` when the decoded bytes are not valid UTF-8. Percent
/// escapes with two hex digits become bytes; any other `%` stays as it is.
pub uninterp spec fn url_decoded(segment: Seq<char>) -> Option<Seq<char>>;

/// The value of a hexadecimal digit.
pub open spec fn hex_value(c: char) -> int {
    if '0' <= c <= '9' {
        c as int - '0' as int
    } else if 'a' <= c <= 'f' {
        c as int - 'a' as int + 10
    } else {
        c as int - 'A' as int + 10
    }
}

/// Whether a character is a hexadecimal digit.
pub open spec fn is_hex_digit(c: char) -> bool {
    '0' <= c <= '9' || 'a' <= c <= 'f' || 'A' <= c <= 'F'
}

/// Whether `%` followed by `high` and `low` escapes an ASCII character: two
/// hex digits of a value below 0x80.
pub open spec fn is_ascii_escape(high: char, low: char) -> bool {
    '0' <= high <= '7' && is_hex_digit(low)
}

/// The character that the escape `%` `high` `low` stands for.
pub open spec fn escaped_char(high: char, low: char) -> char {
    (hex_value(high) * 16 + hex_value(low)) as char
}

/// Whether every `%` of a text starts an escape of an ASCII character.
pub open spec fn ascii_escapes_only(s: Seq<char>) -> bool
    decreases s.len(),
{
    if s.len() == 0 {
        true
    } else if s[0] == '%' {
        s.len() >= 3 && is_ascii_escape(s[1], s[2]) && ascii_escapes_only(s.skip(3))
    } else {
        ascii_escapes_only(s.skip(1))
    }
}

/// The text with each escape `%` `high` `low` replaced by the character it
/// stands for, and every other character kept.
pub open spec fn unescaped(s: Seq<char>) -> Seq<char>
    decreases s.len(),
{
    if s.len() == 0 {
        s
    } else if s[0] == '%' && s.len() >= 3 {
        seq![escaped_char(s[1], s[2])] + unescaped(s.skip(3))
    } else {
        seq![s[0]] + unescaped(s.skip(1))
    }
}

/// What decoding a URL segment gives: a segment without `%` as it is; one
/// whose every `%` escapes an ASCII character with those escapes replaced
/// (the decoded bytes are then valid UTF-8); and otherwise what
/// `url_decoded` names.
pub open spec fn decoded_segment(segment: Seq<char>) -> Option<Seq<char>> {
    if !segment.contains('%') {
        Some(segment)
    } else if ascii_escapes_only(segment) {
        Some(unescaped(segment))
    } else {
        url_decoded(segment)
    }
}

/// The parameters that matching the URL segments against the pattern
/// segments yields, or `None` when they do not match: the counts must agree,
/// static segments must equal their URL segment, and each parameter takes the
/// decoded URL segment (a later parameter of the same name replaces an
/// earlier one).
pub open spec fn match_segments(pattern: Seq<SegmentView>, url: Seq<Seq<char>>) -> Option<
    Map<Seq<char>, Seq<char>>,
>
    decreases pattern.len(),
{
    if pattern.len() != url.len() {
        None
    } else if pattern.len() == 0 {
        Some(Map::empty())
    } else {
        match match_segments(pattern.drop_last(), url.drop_last()) {
            None => None,
            Some(params) => match pattern.last() {
                SegmentView::Static(expected) => if expected == url.last() {
                    Some(params)
                } else {
                    None
                },
                SegmentView::Param(name) => match decoded_segment(url.last()) {
                    Some(value) => Some(params.insert(name, value)),
                    None => None,
                },
            },
        }
    }
}

/// What matching a URL against the pattern parsed from `raw` gives.
pub open spec fn match_url(raw: Seq<char>, url: Seq<char>) -> Option<Map<Seq<char>, Seq<char>>> {
    match_segments(parse_segments(raw), url_segments(url))
}

/// Decodes a percent-encoded URL segment (a parameter value) by calling
/// `urlencoding::decode`. Trusted claim, from the crate's source: a segment
/// without `%` comes back unchanged; a segment whose every `%` is followed by
/// two hex digits of a value below 0x80 comes back with each such escape
/// replaced by its ASCII character (the other characters keep their UTF-8
/// bytes, so the decoded bytes are valid UTF-8); for any other segment the
/// outcome is what `url_decoded` names (`None` exactly when the decoded bytes
/// are not valid UTF-8), which is not spelled out further.
#[verifier::external_body]
fn decode_url_segment(segment: &str) -> (decoded: Option<String>)
    ensures
        match decoded {
            Some(text) => if !segment@.contains('%') {
                text@ == segment@
            } else if ascii_escapes_only(segment@) {
                text@ == unescaped(segment@)
            } else {
                url_decoded(segment@) == Some(text@)
            },
            None => segment@.contains('%') && !ascii_escapes_only(segment@) && url_decoded(
                segment@,
            ) is None,
        },
{
    match urlencoding::decode(segment) {
        Ok(text) => Some(text.into_owned()),
        Err(_) => None,
    }
}

/// Once a prefix fails to match, the whole fails to match.
proof fn lemma_match_prefix_fails(pattern: Seq<SegmentView>, url: Seq<Seq<char>>, k: int)
    requires
        pattern.len() == url.len(),
        0 <= k <= pattern.len(),
        match_segments(pattern.take(k), url.take(k)) is None,
    ensures
        match_segments(pattern, url) is None,
    decreases pattern.len(),
{
    if k == pattern.len() {
        assert(pattern.take(k) =~= pattern);
        assert(url.take(k) =~= url);
    } else {
        assert(pattern.drop_last().take(k) =~= pattern.take(k));
        assert(url.drop_last().take(k) =~= url.take(k));
        lemma_match_prefix_fails(pattern.drop_last(), url.drop_last(), k);
    }
}

/// Normalise a URL path for consistent matching
///
/// This function:
/// - Removes query strings and fragments
/// - Ensures leading slash
/// - Removes trailing slash (except root)
/// - Collapses multiple slashes
pub fn normalize_url(url: &str) -> (normal: String)
    ensures
        normal@ == normalized(url@),
{
    let before_query = first_piece(url, '?');
    let path = first_piece(before_query.as_str(), '#');
    let pieces = split_nonempty(path.as_str(), '/');
    if pieces.len() == 0 {
        proof {
            reveal_strlit("/");
        }
        String::from_str("/")
    } else {
        slash_joined(&pieces)
    }
}

/// A parsed route pattern
#[derive(Debug, PartialEq, Eq)]
pub struct RoutePattern {
    /// The path string the pattern was parsed from (e.g. "/user/:id")
    raw: String,
    /// The parsed segments
    segments: Vec<Segment>,
    /// Priority for route matching (higher = match first)
    priority: usize,
}

impl View for RoutePattern {
    type V = Seq<char>;

    /// A pattern is determined by the path it was parsed from.
    closed spec fn view(&self) -> Seq<char> {
        self.raw@
    }
}

impl RoutePattern {
    #[verifier::type_invariant]
    closed spec fn parsed_from_raw(self) -> bool {
        &&& self.segments.deep_view() == parse_segments(self.raw@)
        &&& self.priority == priority_of(parse_segments(self.raw@))
    }

    /// The segment that one non-empty piece of a path stands for.
    fn segment_from_piece(piece: &String) -> (segment: Segment)
        requires
            piece@.len() > 0,
        ensures
            segment.deep_view() == segment_of(piece@),
    {
        let text = piece.as_str();
        let n = text.unicode_len();
        if text.get_char(0) == ':' {
            Segment::Param(String::from_str(text.substring_char(1, n)))
        } else {
            Segment::Static(piece.clone())
        }
    }

    /// The segments of a route path.
    fn segments_of_path(path: &str) -> (segments: Vec<Segment>)
        ensures
            segments.deep_view() == parse_segments(path@),
    {
        let pieces = split_nonempty(path, '/');
        let n = pieces.len();
        let mut segments: Vec<Segment> = Vec::new();
        let mut i: usize = 0;
        while i < n
            invariant
                n == pieces.len(),
                i <= n,
                pieces.deep_view() == nonempty_pieces(path@, '/'),
                parse_segments(path@).len() == n,
                segments@.len() == i,
                segments.deep_view() == parse_segments(path@).take(i as int),
            decreases n - i,
        {
            proof {
                crate::text::lemma_nonempty_pieces_nonempty(path@, '/');
            }
            assert(pieces.deep_view()[i as int] == pieces[i as int]@);
            let segment = Self::segment_from_piece(&pieces[i]);
            let ghost before = segments.deep_view();
            let ghost before_v = segments@;
            segments.push(segment);
            assert(parse_segments(path@)[i as int] == segment_of(nonempty_pieces(path@, '/')[i as int]));
            assert(segments.deep_view()[i as int] == segment.deep_view());
            assert forall|j: int| 0 <= j < i implies segments.deep_view()[j] == before[j] by {
                assert(segments@[j] == before_v[j]);
            }
            assert(segments.deep_view() =~= parse_segments(path@).take(i + 1));
            i = i + 1;
        }
        assert(segments.deep_view() =~= parse_segments(path@));
        segments
    }

    /// Whether the priority of the pattern of `path` fits in a `usize`, so
    /// that the pattern can be parsed.
    pub fn priority_fits(path: &str) -> (fits: bool)
        ensures
            fits == (priority_of(parse_segments(path@)) <= usize::MAX),
    {
        let segments = Self::segments_of_path(path);
        let ghost segs = segments.deep_view();
        let len = segments.len();
        let mut total: usize = 0;
        let mut index: usize = 0;
        assert(segs.skip(0) =~= segs);
        while index < len
            invariant
                len == segs.len(),
                segs == segments.deep_view(),
                segs == parse_segments(path@),
                index <= len,
                total + weighted_score(segs.skip(index as int)) == weighted_score(segs),
            decreases len - index,
        {
            let ghost rest = segs.skip(index as int);
            assert(rest.drop_first() =~= segs.skip(index + 1));
            assert(rest[0] == segments[index as int].deep_view());
            let weight = len - index;
            let base_score: usize = match &segments[index] {
                Segment::Static(_) => 10_000,
                Segment::Param(_) => 1_000,
            };
            assert(base_score * weight == position_score(rest[0], rest.len())) by (nonlinear_arith)
                requires
                    rest.len() == weight,
                    base_score == 10_000 ==> rest[0] is Static,
                    base_score == 1_000 ==> rest[0] is Param,
                    base_score == 10_000 || base_score == 1_000,
            ;
            match base_score.checked_mul(weight) {
                Some(score) => match total.checked_add(score) {
                    Some(sum) => {
                        total = sum;
                    },
                    None => {
                        return false;
                    },
                },
                None => {
                    return false;
                },
            }
            index = index + 1;
        }
        assert(segs.skip(len as int) =~= Seq::<SegmentView>::empty());
        total.checked_add(len).is_some()
    }

    /// Parse a route path into a pattern
    pub fn parse(path: &str) -> (pattern: Self)
        requires
            priority_of(parse_segments(path@)) <= usize::MAX,
        ensures
            pattern@ == path@,
    {
        let segments = Self::segments_of_path(path);
        let priority = Self::calculate_priority(segments.as_slice());
        RoutePattern { raw: String::from_str(path), segments, priority }
    }

    /// Calculate priority for this pattern using position-weighted scoring
    ///
    /// - Static segments: 10,000 points (base)
    /// - Dynamic segments: 1,000 points (base)
    /// - Position multiplier: the segment at index `i` of `n` weighs `n - i`
    /// - Length bonus: +1 per segment (tiebreaker)
    pub fn calculate_priority(segments: &[Segment]) -> (priority: usize)
        requires
            priority_of(segments.deep_view()) <= usize::MAX,
        ensures
            priority == priority_of(segments.deep_view()),
    {
        let ghost segs = segments.deep_view();
        let len = segments.len();
        let mut priority: usize = 0;
        let mut index: usize = 0;
        proof {
            lemma_weighted_score_bounded(segs, 0);
            assert(segs.skip(0) =~= segs);
        }
        while index < len
            invariant
                len == segs.len(),
                segs == segments.deep_view(),
                index <= len,
                priority + weighted_score(segs.skip(index as int)) == weighted_score(segs),
                weighted_score(segs) + len <= usize::MAX,
            decreases len - index,
        {
            let position_weight = len - index;
            let ghost rest = segs.skip(index as int);
            assert(rest.drop_first() =~= segs.skip(index + 1));
            assert(rest[0] == segments[index as int].deep_view());
            let base_score: usize = match &segments[index] {
                Segment::Static(_) => 10_000,
                Segment::Param(_) => 1_000,
            };
            assert(base_score * position_weight == position_score(rest[0], rest.len())) by (nonlinear_arith)
                requires
                    rest.len() == position_weight,
                    base_score == 10_000 ==> rest[0] is Static,
                    base_score == 1_000 ==> rest[0] is Param,
                    base_score == 10_000 || base_score == 1_000,
            ;
            priority = priority + base_score * position_weight;
            index = index + 1;
        }
        assert(segs.skip(len as int) =~= Seq::<SegmentView>::empty());
        priority = priority + len;
        priority
    }

    /// Check if this pattern matches the given URL path
    ///
    /// The URL is normalised before matching (removes query strings, etc.)
    /// Returns Some(params) if it matches, None otherwise.
    /// Parameter values are URL-decoded.
    pub fn matches(&self, url: &str) -> (params: Option<RouteParams>)
        ensures
            match params {
                Some(found) => match_url(self@, url@) == Some(found@),
                None => match_url(self@, url@) is None,
            },
    {
        proof {
            use_type_invariant(self);
        }
        let normalized = normalize_url(url);
        let url_segs = split_nonempty(normalized.as_str(), '/');
        let ghost pattern = parse_segments(self@);
        let ghost segs = url_segs.deep_view();
        if url_segs.len() != self.segments.len() {
            return None;
        }
        let n = url_segs.len();
        let mut params = RouteParams::new();
        let mut i: usize = 0;
        assert(pattern.take(0) =~= Seq::<SegmentView>::empty());
        assert(segs.take(0) =~= Seq::<Seq<char>>::empty());
        while i < n
            invariant
                n == segs.len(),
                n == pattern.len(),
                pattern == self.segments.deep_view(),
                pattern == parse_segments(self@),
                segs == url_segs.deep_view(),
                segs == url_segments(url@),
                i <= n,
                match_segments(pattern.take(i as int), segs.take(i as int)) == Some(params@),
            decreases n - i,
        {
            let ghost pt = pattern.take(i + 1);
            let ghost st = segs.take(i + 1);
            assert(pt.drop_last() =~= pattern.take(i as int));
            assert(st.drop_last() =~= segs.take(i as int));
            assert(pt.last() == self.segments[i as int].deep_view());
            assert(st.last() == url_segs[i as int]@);
            match &self.segments[i] {
                Segment::Static(expected) => {
                    if !(*expected == url_segs[i]) {
                        assert(match_segments(pt, st) is None);
                        proof {
                            lemma_match_prefix_fails(pattern, segs, i + 1);
                        }
                        return None;
                    }
                },
                Segment::Param(name) => {
                    match decode_url_segment(url_segs[i].as_str()) {
                        Some(decoded) => {
                            params.insert(name.clone(), decoded);
                        },
                        None => {
                            assert(match_segments(pt, st) is None);
                            proof {
                                lemma_match_prefix_fails(pattern, segs, i + 1);
                            }
                            return None;
                        },
                    }
                },
            }
            i = i + 1;
        }
        assert(pattern.take(n as int) =~= pattern);
        assert(segs.take(n as int) =~= segs);
        Some(params)
    }

    /// The path string the pattern was parsed from (e.g. "/user/:id")
    pub fn raw(&self) -> (raw: &str)
        ensures
            raw@ == self@,
    {
        self.raw.as_str()
    }

    /// The parsed segments
    pub fn segments(&self) -> (segments: &[Segment])
        ensures
            segments.deep_view() == parse_segments(self@),
    {
        proof {
            use_type_invariant(self);
        }
        self.segments.as_slice()
    }

    /// Priority for route matching (higher = match first)
    pub fn priority(&self) -> (priority: usize)
        ensures
            priority == priority_of(parse_segments(self@)),
    {
        proof {
            use_type_invariant(self);
        }
        self.priority
    }

    /// Get all parameter names in this pattern
    pub fn param_names(&self) -> (names: Vec<&str>)
        ensures
            names.deep_view() == param_names_of(parse_segments(self@)),
    {
        proof {
            use_type_invariant(self);
        }
        let ghost segs = self.segments.deep_view();
        let n = self.segments.len();
        let mut names: Vec<&str> = Vec::new();
        let mut i: usize = 0;
        while i < n
            invariant
                n == segs.len(),
                segs == self.segments.deep_view(),
                i <= n,
                names.deep_view() == param_names_of(segs.take(i as int)),
            decreases n - i,
        {
            assert(segs.take(i + 1).drop_last() =~= segs.take(i as int));
            assert(segs.take(i + 1).last() == self.segments[i as int].deep_view());
            match &self.segments[i] {
                Segment::Param(name) => {
                    names.push(name.as_str());
                },
                Segment::Static(_) => {},
            }
            assert(names.deep_view() =~= param_names_of(segs.take(i + 1)));
            i = i + 1;
        }
        assert(segs.take(n as int) =~= segs);
        names
    }

    /// Check if this pattern has any parameters
    pub fn has_params(&self) -> (has: bool)
        ensures
            has == has_param(parse_segments(self@)),
    {
        proof {
            use_type_invariant(self);
        }
        let ghost segs = self.segments.deep_view();
        let n = self.segments.len();
        let mut i: usize = 0;
        while i < n
            invariant
                n == segs.len(),
                segs == self.segments.deep_view(),
                i <= n,
                segs == parse_segments(self@),
                forall|j: int| 0 <= j < i ==> !(segs[j] is Param),
            decreases n - i,
        {
            assert(segs[i as int] == self.segments[i as int].deep_view());
            if let Segment::Param(_) = &self.segments[i] {
                assert(segs[i as int] is Param);
                return true;
            }
            i = i + 1;
        }
        false
    }

    /// Check if this pattern is static (no parameters)
    pub fn is_static(&self) -> (is_static: bool)
        ensures
            is_static == !has_param(parse_segments(self@)),
    {
        !self.has_params()
    }
}

impl Clone for Segment {
    fn clone(&self) -> (copy: Self)
        ensures
            copy == *self,
    {
        match self {
            Segment::Static(text) => Segment::Static(text.clone()),
            Segment::Param(name) => Segment::Param(name.clone()),
        }
    }
}

impl Clone for RoutePattern {
    fn clone(&self) -> (copy: Self)
        ensures
            copy@ == self@,
    {
        proof {
            use_type_invariant(self);
        }
        let n = self.segments.len();
        let mut segments: Vec<Segment> = Vec::new();
        let mut i: usize = 0;
        while i < n
            invariant
                n == self.segments.len(),
                i <= n,
                segments@ == self.segments@.take(i as int),
            decreases n - i,
        {
            segments.push(self.segments[i].clone());
            assert(segments@ =~= self.segments@.take(i + 1));
            i = i + 1;
        }
        assert(segments@ =~= self.segments@);
        assert(segments.deep_view() =~= self.segments.deep_view());
        RoutePattern { raw: self.raw.clone(), segments, priority: self.priority }
    }
}

/// The path part of a URL holds neither `?` nor `#`, and only characters of the URL.
proof fn lemma_path_part_chars(url: Seq<char>)
    ensures
        !path_part(url).contains('?'),
        !path_part(url).contains('#'),
        forall|c: char| #[trigger] path_part(url).contains(c) ==> url.contains(c),
{
    lemma_split_nonempty(url, '?');
    lemma_split_chars(url, '?');
    let before_query = split_pieces(url, '?')[0];
    lemma_split_nonempty(before_query, '#');
    lemma_split_chars(before_query, '#');
    let path = path_part(url);
    assert forall|c: char| #[trigger] path.contains(c) implies url.contains(c) && c != '#' by {
        assert(split_pieces(before_query, '#')[0].contains(c));
        assert(before_query.contains(c));
        assert(split_pieces(url, '?')[0].contains(c));
    }
    assert(!path.contains('?')) by {
        if path.contains('?') {
            assert(before_query.contains('?'));
            assert(split_pieces(url, '?')[0].contains('?'));
        }
    }
}

/// The non-empty pieces of a URL's path part, with what joining them gives.
proof fn lemma_url_pieces(url: Seq<char>)
    ensures
        forall|i: int|
            0 <= i < nonempty_pieces(path_part(url), '/').len() ==> (#[trigger] nonempty_pieces(
                path_part(url),
                '/',
            )[i]).len() > 0 && !nonempty_pieces(path_part(url), '/')[i].contains('/')
                && !nonempty_pieces(path_part(url), '/')[i].contains('?')
                && !nonempty_pieces(path_part(url), '/')[i].contains('#'),
{
    let path = path_part(url);
    lemma_path_part_chars(url);
    lemma_nonempty_pieces_chars(path, '/');
    let pieces = nonempty_pieces(path, '/');
    assert forall|i: int| 0 <= i < pieces.len() implies (#[trigger] pieces[i]).len() > 0
        && !pieces[i].contains('/') && !pieces[i].contains('?') && !pieces[i].contains('#') by {
        if pieces[i].contains('?') {
            assert(path.contains('?'));
        }
        if pieces[i].contains('#') {
            assert(path.contains('#'));
        }
    }
}

/// A normalised URL starts with a slash, holds no query string or fragment,
/// ends with a slash only when it is the root, and never holds two slashes
/// in a row.
pub proof fn lemma_normalized_form(url: Seq<char>)
    ensures
        normalized(url).len() >= 1,
        normalized(url)[0] == '/',
        !normalized(url).contains('?'),
        !normalized(url).contains('#'),
        normalized(url).len() > 1 ==> normalized(url).last() != '/',
        forall|i: int|
            0 <= i < normalized(url).len() - 1 ==> !(#[trigger] normalized(url)[i] == '/'
                && normalized(url)[i + 1] == '/'),
{
    let pieces = nonempty_pieces(path_part(url), '/');
    let n = normalized(url);
    lemma_url_pieces(url);
    if pieces.len() == 0 {
        assert(n == seq!['/']);
        assert(!n.contains('?')) by {
            if n.contains('?') {
                assert(n[0] == '?');
            }
        }
        assert(!n.contains('#')) by {
            if n.contains('#') {
                assert(n[0] == '#');
            }
        }
    } else {
        lemma_join_shape(pieces, '/');
        let j = join_with(pieces, '/');
        assert(n == seq!['/'] + j);
        assert(n[1] == j[0]);
        assert(n.last() == j.last());
        assert forall|i: int| 0 <= i < n.len() - 1 implies !(#[trigger] n[i] == '/' && n[i + 1]
            == '/') by {
            if i == 0 {
                assert(n[1] == j[0]);
            } else {
                assert(n[i] == j[i - 1] && n[i + 1] == j[i]);
            }
        }
        assert forall|c: char| c == '?' || c == '#' implies !n.contains(c) by {
            if n.contains(c) {
                let m = choose|m: int| 0 <= m < n.len() && n[m] == c;
                assert(m > 0);
                assert(j[m - 1] == c);
                assert(j.contains(c));
                let k = choose|k: int| 0 <= k < pieces.len() && pieces[k].contains(c);
                assert(pieces[k].contains(c));
            }
        }
    }
}

/// Normalising keeps the non-empty pieces of the URL's path part.
proof fn lemma_normalized_pieces(url: Seq<char>)
    ensures
        path_part(normalized(url)) == normalized(url),
        nonempty_pieces(normalized(url), '/') == nonempty_pieces(path_part(url), '/'),
{
    let pieces = nonempty_pieces(path_part(url), '/');
    let n = normalized(url);
    let ne = |piece: Seq<char>| is_nonempty(piece);
    lemma_normalized_form(url);
    lemma_url_pieces(url);
    lemma_split_without_sep(n, '?');
    lemma_split_without_sep(n, '#');
    let empty = Seq::<char>::empty();
    if pieces.len() == 0 {
        assert(n =~= empty + seq!['/'] + empty);
        lemma_split_concat(empty, empty, '/');
        assert(split_pieces(n, '/') =~= seq![empty].push(empty));
        seq![empty].lemma_filter_push(empty, ne);
        Seq::<Seq<char>>::empty().lemma_filter_push(empty, ne);
        assert(Seq::<Seq<char>>::empty().push(empty) =~= seq![empty]);
        reveal(Seq::filter);
        assert(Seq::<Seq<char>>::empty().filter(ne) =~= Seq::<Seq<char>>::empty());
    } else {
        let j = join_with(pieces, '/');
        assert(n =~= empty + seq!['/'] + j);
        lemma_split_concat(empty, j, '/');
        lemma_split_join(pieces, '/');
        assert(split_pieces(n, '/') =~= seq![empty] + pieces);
        Seq::filter_distributes_over_add(seq![empty], pieces, ne);
        lemma_filter_keeps_all(pieces, ne);
        Seq::<Seq<char>>::empty().lemma_filter_push(empty, ne);
        assert(Seq::<Seq<char>>::empty().push(empty) =~= seq![empty]);
        reveal(Seq::filter);
        assert(Seq::<Seq<char>>::empty().filter(ne) =~= Seq::<Seq<char>>::empty());
        assert(seq![empty].filter(ne) + pieces =~= pieces);
    }
}

/// The URL made of the given pieces: a lone slash when there are none, else
/// a slash and the pieces joined by slashes.
pub open spec fn url_of_segments(pieces: Seq<Seq<char>>) -> Seq<char> {
    if pieces.len() == 0 {
        seq!['/']
    } else {
        seq!['/'] + join_with(pieces, '/')
    }
}

/// The path made of non-empty pieces free of `/` splits back into exactly
/// those pieces; it starts with a slash, ends with one only when it is the
/// lone slash, never holds two slashes in a row, and holds no character
/// other than the slash that is not in one of the pieces.
pub proof fn lemma_slash_joined_pieces(pieces: Seq<Seq<char>>)
    requires
        forall|i: int|
            0 <= i < pieces.len() ==> (#[trigger] pieces[i]).len() > 0 && !pieces[i].contains('/'),
    ensures
        nonempty_pieces(url_of_segments(pieces), '/') == pieces,
        url_of_segments(pieces).len() >= 1,
        url_of_segments(pieces)[0] == '/',
        url_of_segments(pieces) != seq!['/'] ==> url_of_segments(pieces).last() != '/',
        forall|i: int|
            0 <= i < url_of_segments(pieces).len() - 1 ==> !(#[trigger] url_of_segments(pieces)[i]
                == '/' && url_of_segments(pieces)[i + 1] == '/'),
        forall|c: char|
            #[trigger] url_of_segments(pieces).contains(c) ==> c == '/' || exists|k: int|
                0 <= k < pieces.len() && pieces[k].contains(c),
{
    let u = url_of_segments(pieces);
    let ne = |piece: Seq<char>| is_nonempty(piece);
    let empty = Seq::<char>::empty();
    if pieces.len() == 0 {
        assert(u =~= empty + seq!['/'] + empty);
        lemma_split_concat(empty, empty, '/');
        assert(split_pieces(u, '/') =~= seq![empty].push(empty));
        seq![empty].lemma_filter_push(empty, ne);
        Seq::<Seq<char>>::empty().lemma_filter_push(empty, ne);
        assert(Seq::<Seq<char>>::empty().push(empty) =~= seq![empty]);
        reveal(Seq::filter);
        assert(Seq::<Seq<char>>::empty().filter(ne) =~= Seq::<Seq<char>>::empty());
        assert forall|c: char| #[trigger] u.contains(c) implies c == '/' by {
            let m = choose|m: int| 0 <= m < u.len() && u[m] == c;
            assert(m == 0);
        }
    } else {
        let j = join_with(pieces, '/');
        lemma_join_shape(pieces, '/');
        assert(u =~= empty + seq!['/'] + j);
        lemma_split_concat(empty, j, '/');
        lemma_split_join(pieces, '/');
        assert(split_pieces(u, '/') =~= seq![empty] + pieces);
        Seq::filter_distributes_over_add(seq![empty], pieces, ne);
        lemma_filter_keeps_all(pieces, ne);
        Seq::<Seq<char>>::empty().lemma_filter_push(empty, ne);
        assert(Seq::<Seq<char>>::empty().push(empty) =~= seq![empty]);
        reveal(Seq::filter);
        assert(Seq::<Seq<char>>::empty().filter(ne) =~= Seq::<Seq<char>>::empty());
        assert(seq![empty].filter(ne) + pieces =~= pieces);
        assert(u.last() == j.last());
        assert(u != seq!['/']) by {
            assert(u.len() == j.len() + 1);
        }
        assert forall|i: int| 0 <= i < u.len() - 1 implies !(#[trigger] u[i] == '/' && u[i + 1]
            == '/') by {
            if i == 0 {
                assert(u[1] == j[0]);
            } else {
                assert(u[i] == j[i - 1] && u[i + 1] == j[i]);
            }
        }
        assert forall|c: char| #[trigger] u.contains(c) implies c == '/' || exists|k: int|
            0 <= k < pieces.len() && pieces[k].contains(c) by {
            let m = choose|m: int| 0 <= m < u.len() && u[m] == c;
            if m > 0 {
                assert(j[m - 1] == c);
                assert(j.contains(c));
            }
        }
    }
}

/// The URL made of non-empty pieces free of `/`, `?` and `#` has exactly
/// those pieces as its segments.
pub proof fn lemma_url_of_segments(pieces: Seq<Seq<char>>)
    requires
        forall|i: int|
            0 <= i < pieces.len() ==> (#[trigger] pieces[i]).len() > 0 && !pieces[i].contains('/')
                && !pieces[i].contains('?') && !pieces[i].contains('#'),
    ensures
        url_segments(url_of_segments(pieces)) == pieces,
{
    let u = url_of_segments(pieces);
    lemma_slash_joined_pieces(pieces);
    assert forall|c: char| c == '?' || c == '#' implies !u.contains(c) by {
        if u.contains(c) {
            let k = choose|k: int| 0 <= k < pieces.len() && pieces[k].contains(c);
            assert(pieces[k].contains(c));
        }
    }
    lemma_split_without_sep(u, '?');
    lemma_split_without_sep(u, '#');
    assert(path_part(u) == u);
    lemma_normalized_pieces(u);
}

/// Normalising an already normalised URL changes nothing.
pub proof fn lemma_normalize_idempotent(url: Seq<char>)
    ensures
        normalized(normalized(url)) == normalized(url),
{
    lemma_normalized_pieces(url);
}

/// A trailing slash does not change the normal form of a URL that holds no
/// query string or fragment.
pub proof fn lemma_trailing_slash_ignored(url: Seq<char>)
    requires
        !url.contains('?'),
        !url.contains('#'),
    ensures
        normalized(url + seq!['/']) == normalized(url),
{
    let with_slash = url + seq!['/'];
    assert(!with_slash.contains('?') && !with_slash.contains('#')) by {
        assert forall|c: char| c == '?' || c == '#' implies !with_slash.contains(c) by {
            if with_slash.contains(c) {
                let m = choose|m: int| 0 <= m < with_slash.len() && with_slash[m] == c;
                assert(m < url.len());
                assert(url[m] == c);
            }
        }
    }
    lemma_split_without_sep(url, '?');
    lemma_split_without_sep(url, '#');
    lemma_split_without_sep(with_slash, '?');
    lemma_split_without_sep(with_slash, '#');
    assert(path_part(url) == url);
    assert(path_part(with_slash) == with_slash);
    assert(with_slash.drop_last() =~= url);
    let empty = Seq::<char>::empty();
    assert(split_pieces(with_slash, '/') == split_pieces(url, '/').push(empty));
    let ne = |piece: Seq<char>| is_nonempty(piece);
    split_pieces(url, '/').lemma_filter_push(empty, ne);
    assert(nonempty_pieces(with_slash, '/') == nonempty_pieces(url, '/'));
}

/// Matching a URL gives what matching its normal form gives.
pub proof fn lemma_match_ignores_normalization(raw: Seq<char>, url: Seq<char>)
    ensures
        match_url(raw, normalized(url)) == match_url(raw, url),
{
    lemma_normalize_idempotent(url);
}

/// A successful match binds exactly the parameter names of the pattern.
pub proof fn lemma_match_binds_param_names(pattern: Seq<SegmentView>, url: Seq<Seq<char>>)
    ensures
        match_segments(pattern, url) matches Some(params) ==> forall|name: Seq<char>|
            #[trigger] params.contains_key(name) <==> param_names_of(pattern).contains(name),
    decreases pattern.len(),
{
    if pattern.len() == url.len() && pattern.len() > 0 {
        let init = pattern.drop_last();
        lemma_match_binds_param_names(init, url.drop_last());
        let names = param_names_of(init);
        if let Some(params) = match_segments(pattern, url) {
            let before = match_segments(init, url.drop_last())->0;
            match pattern.last() {
                SegmentView::Static(_) => {},
                SegmentView::Param(name) => {
                    assert forall|k: Seq<char>| #[trigger] params.contains_key(k)
                        <==> names.push(name).contains(k) by {
                        if names.push(name).contains(k) && k != name {
                            let i = choose|i: int| 0 <= i < names.len() + 1 && names.push(name)[i] == k;
                            assert(names[i] == k);
                        }
                        if names.contains(k) {
                            let i = choose|i: int| 0 <= i < names.len() && names[i] == k;
                            assert(names.push(name)[i] == k);
                        }
                        if k == name {
                            assert(names.push(name)[names.len() as int] == k);
                        }
                    }
                },
            }
        }
    } else if pattern.len() == url.len() {
        assert(pattern.len() == 0);
    }
}

/// What matching the pattern parsed from `raw` binds: exactly its parameter names.
pub proof fn lemma_matched_params(raw: Seq<char>, url: Seq<char>)
    ensures
        match_url(raw, url) matches Some(params) ==> forall|name: Seq<char>|
            #[trigger] params.contains_key(name) <==> param_names_of(parse_segments(raw)).contains(
                name,
            ),
{
    lemma_match_binds_param_names(parse_segments(raw), url_segments(url));
}

/// Whether two segments are of the same kind: both static or both parameters.
pub open spec fn same_kind(x: SegmentView, y: SegmentView) -> bool {
    (x is Static) == (y is Static)
}

/// The weighted score depends only on the kinds of the segments.
proof fn lemma_score_by_kinds(a: Seq<SegmentView>, b: Seq<SegmentView>)
    requires
        a.len() == b.len(),
        forall|j: int| 0 <= j < a.len() ==> same_kind(#[trigger] a[j], b[j]),
    ensures
        weighted_score(a) == weighted_score(b),
    decreases a.len(),
{
    if a.len() > 0 {
        assert(same_kind(a[0], b[0]));
        assert forall|j: int| 0 <= j < a.len() - 1 implies same_kind(
            #[trigger] a.drop_first()[j],
            b.drop_first()[j],
        ) by {
            assert(same_kind(a[j + 1], b[j + 1]));
        }
        lemma_score_by_kinds(a.drop_first(), b.drop_first());
    }
}

/// Turning the parameter at index `i` into a static segment, the other
/// kinds unchanged, raises the weighted score by 9,000 times the weight of
/// that position.
proof fn lemma_static_over_param_score(a: Seq<SegmentView>, b: Seq<SegmentView>, i: int)
    requires
        a.len() == b.len(),
        0 <= i < a.len(),
        a[i] is Static,
        b[i] is Param,
        forall|j: int| 0 <= j < a.len() && j != i ==> same_kind(#[trigger] a[j], b[j]),
    ensures
        weighted_score(a) == weighted_score(b) + 9_000 * (a.len() - i),
    decreases i,
{
    if i == 0 {
        assert forall|j: int| 0 <= j < a.len() - 1 implies same_kind(
            #[trigger] a.drop_first()[j],
            b.drop_first()[j],
        ) by {
            assert(same_kind(a[j + 1], b[j + 1]));
        }
        lemma_score_by_kinds(a.drop_first(), b.drop_first());
    } else {
        assert(same_kind(a[0], b[0]));
        assert forall|j: int| 0 <= j < a.len() - 1 && j != i - 1 implies same_kind(
            #[trigger] a.drop_first()[j],
            b.drop_first()[j],
        ) by {
            assert(same_kind(a[j + 1], b[j + 1]));
        }
        lemma_static_over_param_score(a.drop_first(), b.drop_first(), i - 1);
    }
}

/// Static segments beat parameters at the same position: of two patterns
/// of the same length whose segments are of the same kinds except at `i`,
/// where the first has a static segment and the second a parameter, the
/// first has the higher priority, by exactly 9,000 times `n - i` for `n`
/// segments.
pub proof fn lemma_static_beats_param(a: Seq<SegmentView>, b: Seq<SegmentView>, i: int)
    requires
        a.len() == b.len(),
        0 <= i < a.len(),
        a[i] is Static,
        b[i] is Param,
        forall|j: int| 0 <= j < a.len() && j != i ==> same_kind(#[trigger] a[j], b[j]),
    ensures
        priority_of(a) == priority_of(b) + 9_000 * (a.len() - i),
        priority_of(a) > priority_of(b),
{
    lemma_static_over_param_score(a, b, i);
}

/// Earlier segments matter more: of two patterns of the same length whose
/// segments are of the same kinds except at positions `i < j`, where one has
/// a static segment at `i` and a parameter at `j` and the other the reverse,
/// the first has the higher priority, by exactly 9,000 times `j - i`.
pub proof fn lemma_earlier_static_wins(a: Seq<SegmentView>, b: Seq<SegmentView>, i: int, j: int)
    requires
        a.len() == b.len(),
        0 <= i < j < a.len(),
        a[i] is Static,
        a[j] is Param,
        b[i] is Param,
        b[j] is Static,
        forall|k: int| 0 <= k < a.len() && k != i && k != j ==> same_kind(#[trigger] a[k], b[k]),
    ensures
        priority_of(a) == priority_of(b) + 9_000 * (j - i),
        priority_of(a) > priority_of(b),
{
    let c = a.update(j, b[j]);
    assert forall|k: int| 0 <= k < c.len() && k != j implies same_kind(#[trigger] c[k], a[k]) by {}
    lemma_static_over_param_score(c, a, j);
    assert forall|k: int| 0 <= k < c.len() && k != i implies same_kind(#[trigger] c[k], b[k]) by {
        if k != j {
            assert(same_kind(a[k], b[k]));
        }
    }
    lemma_static_over_param_score(c, b, i);
}

/// A pattern that is static wherever another of the same length is scores
/// at least as high, and strictly higher when it is static somewhere the
/// other has a parameter.
proof fn lemma_score_dominates(a: Seq<SegmentView>, b: Seq<SegmentView>)
    requires
        a.len() == b.len(),
        forall|k: int| 0 <= k < a.len() && (#[trigger] b[k]) is Static ==> a[k] is Static,
    ensures
        weighted_score(a) >= weighted_score(b),
        (exists|k: int| 0 <= k < a.len() && (#[trigger] a[k]) is Static && b[k] is Param)
            ==> weighted_score(a) > weighted_score(b),
    decreases a.len(),
{
    if a.len() > 0 {
        let ta = a.drop_first();
        let tb = b.drop_first();
        assert forall|k: int| 0 <= k < ta.len() && (#[trigger] tb[k]) is Static implies ta[k] is Static by {
            assert(b[k + 1] is Static);
        }
        lemma_score_dominates(ta, tb);
        assert(b[0] is Static ==> a[0] is Static);
        if exists|k: int| 0 <= k < a.len() && (#[trigger] a[k]) is Static && b[k] is Param {
            let k = choose|k: int| 0 <= k < a.len() && (#[trigger] a[k]) is Static && b[k] is Param;
            if k > 0 {
                assert(ta[k - 1] is Static && tb[k - 1] is Param);
            }
        }
    }
}

/// More static segments win: of two patterns of the same length, one that
/// is static wherever the other is, and static somewhere the other has a
/// parameter, has the higher priority.
pub proof fn lemma_more_static_wins(a: Seq<SegmentView>, b: Seq<SegmentView>, i: int)
    requires
        a.len() == b.len(),
        forall|k: int| 0 <= k < a.len() && (#[trigger] b[k]) is Static ==> a[k] is Static,
        0 <= i < a.len(),
        a[i] is Static,
        b[i] is Param,
    ensures
        priority_of(a) > priority_of(b),
{
    lemma_score_dominates(a, b);
}

/// Deeper routes break ties: of two patterns with the same weighted score,
/// the one with more segments has the higher priority.
pub proof fn lemma_length_breaks_ties(a: Seq<SegmentView>, b: Seq<SegmentView>)
    requires
        weighted_score(a) == weighted_score(b),
        a.len() > b.len(),
    ensures
        priority_of(a) > priority_of(b),
{
}

/// The weighted score of a suffix is at most that of the whole.
proof fn lemma_weighted_score_bounded(segments: Seq<SegmentView>, k: int)
    requires
        0 <= k <= segments.len(),
    ensures
        weighted_score(segments.skip(k)) <= weighted_score(segments),
    decreases k,
{
    if k > 0 {
        lemma_weighted_score_bounded(segments, k - 1);
        let rest = segments.skip(k - 1);
        assert(rest.drop_first() =~= segments.skip(k));
    } else {
        assert(segments.skip(0) =~= segments);
    }
}

} // verus!
