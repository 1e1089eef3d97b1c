//! Route parameters: a map from parameter names to values, and the
//! extraction of parameters from a path against a pattern string.

use crate::text::{nonempty_pieces, split_nonempty};
use vstd::prelude::*;

verus! {

/// Parameters extracted from a URL path, keyed by parameter name. Inserting
/// a name that is already present replaces its value, as a hash map does.
#[derive(Debug)]
pub struct RouteParams {
    entries: Vec<(String, String)>,
}

/// The map that a list of name/value entries with distinct names describes.
pub open spec fn entries_map(entries: Seq<(Seq<char>, Seq<char>)>) -> Map<Seq<char>, Seq<char>>
    decreases entries.len(),
{
    if entries.len() == 0 {
        Map::empty()
    } else {
        entries_map(entries.drop_last()).insert(entries.last().0, entries.last().1)
    }
}

/// No name occurs twice among the entries.
pub open spec fn distinct_names(entries: Seq<(Seq<char>, Seq<char>)>) -> bool {
    forall|i: int, j: int|
        0 <= i < entries.len() && 0 <= j < entries.len() && i != j ==> #[trigger] entries[i].0
            != #[trigger] entries[j].0
}

/// The entries' map holds exactly their names, each with its value.
pub proof fn lemma_entries_map(entries: Seq<(Seq<char>, Seq<char>)>)
    requires
        distinct_names(entries),
    ensures
        forall|k: Seq<char>|
            #[trigger] entries_map(entries).contains_key(k) <==> exists|i: int|
                0 <= i < entries.len() && entries[i].0 == k,
        forall|i: int|
            0 <= i < entries.len() ==> #[trigger] entries_map(entries)[entries[i].0] == entries[i].1,
        entries_map(entries).dom().finite(),
        entries_map(entries).len() == entries.len(),
    decreases entries.len(),
{
    if entries.len() > 0 {
        let init = entries.drop_last();
        assert forall|i: int, j: int|
            0 <= i < init.len() && 0 <= j < init.len() && i != j implies #[trigger] init[i].0
            != #[trigger] init[j].0 by {
            assert(init[i] == entries[i] && init[j] == entries[j]);
        }
        lemma_entries_map(init);
        let last = entries.last();
        assert(!entries_map(init).contains_key(last.0)) by {
            if entries_map(init).contains_key(last.0) {
                let i = choose|i: int| 0 <= i < init.len() && init[i].0 == last.0;
                assert(entries[i].0 == entries[entries.len() - 1].0);
            }
        }
        assert forall|k: Seq<char>|
            #[trigger] entries_map(entries).contains_key(k) <==> exists|i: int|
                0 <= i < entries.len() && entries[i].0 == k by {
            if entries_map(entries).contains_key(k) {
                if k == last.0 {
                    assert(entries[entries.len() - 1].0 == k);
                } else {
                    let i = choose|i: int| 0 <= i < init.len() && init[i].0 == k;
                    assert(entries[i].0 == k);
                }
            }
            if exists|i: int| 0 <= i < entries.len() && entries[i].0 == k {
                let i = choose|i: int| 0 <= i < entries.len() && entries[i].0 == k;
                if i < init.len() {
                    assert(init[i].0 == k);
                }
            }
        }
        assert forall|i: int| 0 <= i < entries.len() implies #[trigger] entries_map(entries)[entries[i].0]
            == entries[i].1 by {
            if i < init.len() {
                assert(init[i] == entries[i]);
                assert(entries[i].0 != last.0);
            }
        }
    }
}

/// Replacing the value of an entry replaces it in the map.
proof fn lemma_entries_map_update(
    entries: Seq<(Seq<char>, Seq<char>)>,
    i: int,
    value: Seq<char>,
)
    requires
        distinct_names(entries),
        0 <= i < entries.len(),
    ensures
        entries_map(entries.update(i, (entries[i].0, value))) == entries_map(entries).insert(
            entries[i].0,
            value,
        ),
    decreases entries.len(),
{
    let updated = entries.update(i, (entries[i].0, value));
    let init = entries.drop_last();
    if i == entries.len() - 1 {
        assert(updated.drop_last() =~= init);
        assert(entries_map(updated) =~= entries_map(entries).insert(entries[i].0, value));
    } else {
        assert forall|a: int, b: int|
            0 <= a < init.len() && 0 <= b < init.len() && a != b implies #[trigger] init[a].0
            != #[trigger] init[b].0 by {
            assert(init[a] == entries[a] && init[b] == entries[b]);
        }
        lemma_entries_map_update(init, i, value);
        assert(updated.drop_last() =~= init.update(i, (init[i].0, value)));
        assert(entries[i].0 != entries[entries.len() - 1].0);
        assert(entries_map(updated) =~= entries_map(entries).insert(entries[i].0, value));
    }
}

impl View for RouteParams {
    type V = Map<Seq<char>, Seq<char>>;

    closed spec fn view(&self) -> Map<Seq<char>, Seq<char>> {
        entries_map(self.entries.deep_view())
    }
}

impl RouteParams {
    #[verifier::type_invariant]
    closed spec fn names_distinct(self) -> bool {
        distinct_names(self.entries.deep_view())
    }

    /// An empty parameter map.
    pub fn new() -> (params: Self)
        ensures
            params@ == Map::<Seq<char>, Seq<char>>::empty(),
    {
        let params = RouteParams { entries: Vec::new() };
        assert(params.entries.deep_view() =~= Seq::<(Seq<char>, Seq<char>)>::empty());
        params
    }

    /// The position of the entry named `name`, if there is one.
    fn position(&self, name: &String) -> (pos: Option<usize>)
        ensures
            match pos {
                Some(i) => i < self.entries.len() && self.entries.deep_view()[i as int].0 == name@,
                None => forall|i: int|
                    0 <= i < self.entries.len() ==> self.entries.deep_view()[i].0 != name@,
            },
    {
        let n = self.entries.len();
        let mut i: usize = 0;
        while i < n
            invariant
                n == self.entries.len(),
                i <= n,
                forall|j: int| 0 <= j < i ==> self.entries.deep_view()[j].0 != name@,
            decreases n - i,
        {
            if self.entries[i].0 == *name {
                return Some(i);
            }
            i = i + 1;
        }
        None
    }

    /// Sets `name` to `value`, replacing an earlier value of `name`.
    pub fn insert(&mut self, name: String, value: String)
        ensures
            final(self)@ == old(self)@.insert(name@, value@),
    {
        proof {
            use_type_invariant(&*self);
        }
        let ghost before = self.entries.deep_view();
        let pos = self.position(&name);
        let mut entries: Vec<(String, String)> = Vec::new();
        std::mem::swap(&mut entries, &mut self.entries);
        assert(entries.deep_view() == before);
        match pos {
            Some(i) => {
                entries.set(i, (name, value));
                proof {
                    lemma_entries_map_update(before, i as int, value@);
                    assert(entries.deep_view() =~= before.update(i as int, (before[i as int].0, value@)));
                    assert forall|a: int, b: int|
                        0 <= a < entries.deep_view().len() && 0 <= b < entries.deep_view().len() && a
                            != b implies #[trigger] entries.deep_view()[a].0
                        != #[trigger] entries.deep_view()[b].0 by {
                        assert(entries.deep_view()[a].0 == before[a].0);
                        assert(entries.deep_view()[b].0 == before[b].0);
                    }
                }
            },
            None => {
                entries.push((name, value));
                proof {
                    assert(entries.deep_view() =~= before.push((name@, value@)));
                    assert(entries.deep_view().drop_last() =~= before);
                    assert forall|a: int, b: int|
                        0 <= a < entries.deep_view().len() && 0 <= b < entries.deep_view().len() && a
                            != b implies #[trigger] entries.deep_view()[a].0
                        != #[trigger] entries.deep_view()[b].0 by {
                        if a < before.len() {
                            assert(entries.deep_view()[a] == before[a]);
                        }
                        if b < before.len() {
                            assert(entries.deep_view()[b] == before[b]);
                        }
                    }
                }
            },
        }
        self.entries = entries;
    }

    /// The value of `name`, if it is present.
    pub fn get(&self, name: &str) -> (value: Option<&String>)
        ensures
            value is Some <==> self@.contains_key(name@),
            value matches Some(v) ==> v@ == self@[name@],
    {
        proof {
            use_type_invariant(self);
            lemma_entries_map(self.entries.deep_view());
        }
        let key = String::from_str(name);
        match self.position(&key) {
            Some(i) => Some(&self.entries[i].1),
            None => None,
        }
    }

    /// The name/value entries, each name once.
    pub fn entries(&self) -> (entries: &[(String, String)])
        ensures
            entries_map(entries.deep_view()) == self@,
            distinct_names(entries.deep_view()),
    {
        proof {
            use_type_invariant(self);
        }
        self.entries.as_slice()
    }

    /// Whether `name` is present.
    pub fn contains_key(&self, name: &str) -> (present: bool)
        ensures
            present == self@.contains_key(name@),
    {
        self.get(name).is_some()
    }

    /// The number of parameters.
    pub fn len(&self) -> (count: usize)
        ensures
            count == self@.len(),
            self@.dom().finite(),
    {
        proof {
            use_type_invariant(self);
            lemma_entries_map(self.entries.deep_view());
        }
        self.entries.len()
    }

    /// Whether there are no parameters.
    pub fn is_empty(&self) -> (empty: bool)
        ensures
            empty <==> self@ == Map::<Seq<char>, Seq<char>>::empty(),
    {
        proof {
            use_type_invariant(self);
            lemma_entries_map(self.entries.deep_view());
            if self.entries.len() == 0 {
                assert(self@ =~= Map::<Seq<char>, Seq<char>>::empty());
            } else {
                assert(self@.contains_key(self.entries.deep_view()[0].0));
            }
        }
        self.entries.len() == 0
    }
}

/// The parameters that pairing pattern pieces with path pieces gives: each
/// pattern piece that starts with `:` names a parameter whose value is the
/// path piece at the same position (a later name replaces an earlier one).
pub open spec fn collect_params(pattern: Seq<Seq<char>>, path: Seq<Seq<char>>) -> Map<
    Seq<char>,
    Seq<char>,
>
    decreases pattern.len(),
{
    if pattern.len() == 0 {
        Map::empty()
    } else {
        let init = collect_params(pattern.drop_last(), path.drop_last());
        let piece = pattern.last();
        if piece.len() > 0 && piece[0] == ':' {
            init.insert(piece.drop_first(), path.last())
        } else {
            init
        }
    }
}

/// The parameters of `path` under `pattern`: none when the two have
/// different numbers of non-empty pieces between slashes.
pub open spec fn extracted_params(path: Seq<char>, pattern: Seq<char>) -> Map<Seq<char>, Seq<char>> {
    let path_pieces = nonempty_pieces(path, '/');
    let pattern_pieces = nonempty_pieces(pattern, '/');
    if path_pieces.len() != pattern_pieces.len() {
        Map::empty()
    } else {
        collect_params(pattern_pieces, path_pieces)
    }
}

/// Whether a pattern piece names a parameter: it starts with `:`.
pub open spec fn is_param_piece(piece: Seq<char>) -> bool {
    piece.len() > 0 && piece[0] == ':'
}

/// Whether the parameter piece at `i` is the last one with its name.
pub open spec fn last_with_name(pattern: Seq<Seq<char>>, i: int) -> bool {
    forall|j: int|
        i < j < pattern.len() && is_param_piece(#[trigger] pattern[j]) ==> pattern[j].drop_first()
            != pattern[i].drop_first()
}

/// Pairing pieces binds exactly the names of the parameter pieces, each to
/// the path piece at the position of the last piece with that name.
proof fn lemma_collect_params(pattern: Seq<Seq<char>>, path: Seq<Seq<char>>)
    requires
        pattern.len() == path.len(),
    ensures
        forall|k: Seq<char>|
            #[trigger] collect_params(pattern, path).contains_key(k) <==> exists|i: int|
                0 <= i < pattern.len() && is_param_piece(pattern[i]) && pattern[i].drop_first() == k,
        forall|i: int|
            0 <= i < pattern.len() && is_param_piece(pattern[i]) && last_with_name(pattern, i)
                ==> collect_params(pattern, path)[#[trigger] pattern[i].drop_first()] == path[i],
    decreases pattern.len(),
{
    if pattern.len() > 0 {
        let init = pattern.drop_last();
        let n = pattern.len() - 1;
        lemma_collect_params(init, path.drop_last());
        let m = collect_params(pattern, path);
        let m0 = collect_params(init, path.drop_last());
        assert forall|k: Seq<char>| #[trigger] m.contains_key(k) <==> exists|i: int|
            0 <= i < pattern.len() && is_param_piece(pattern[i]) && pattern[i].drop_first() == k by {
            if m.contains_key(k) {
                if is_param_piece(pattern[n]) && pattern[n].drop_first() == k {
                } else {
                    assert(m0.contains_key(k));
                    let i = choose|i: int|
                        0 <= i < init.len() && is_param_piece(init[i]) && init[i].drop_first() == k;
                    assert(pattern[i] == init[i]);
                }
            }
            if exists|i: int|
                0 <= i < pattern.len() && is_param_piece(pattern[i]) && pattern[i].drop_first() == k {
                let i = choose|i: int|
                    0 <= i < pattern.len() && is_param_piece(pattern[i]) && pattern[i].drop_first() == k;
                if i < n {
                    assert(init[i] == pattern[i]);
                    assert(m0.contains_key(k));
                }
            }
        }
        assert forall|i: int|
            0 <= i < pattern.len() && is_param_piece(pattern[i]) && last_with_name(pattern, i)
                implies m[#[trigger] pattern[i].drop_first()] == path[i] by {
            if i < n {
                assert(init[i] == pattern[i]);
                assert(last_with_name(init, i)) by {
                    assert forall|j: int| i < j < init.len() && is_param_piece(#[trigger] init[j])
                        implies init[j].drop_first() != init[i].drop_first() by {
                        assert(init[j] == pattern[j]);
                    }
                }
                assert(m0[init[i].drop_first()] == path.drop_last()[i]);
                if is_param_piece(pattern[n]) {
                    assert(pattern[n].drop_first() != pattern[i].drop_first());
                }
            }
        }
    }
}

/// What extracting gives: nothing at all when the path and the pattern have
/// different numbers of non-empty pieces between slashes (the path shorter
/// or longer); otherwise exactly the names of the pattern's `:` pieces, each
/// bound to the path piece at the position of the last pattern piece with
/// that name.
pub proof fn lemma_extracted_params(path: Seq<char>, pattern: Seq<char>)
    ensures
        nonempty_pieces(path, '/').len() != nonempty_pieces(pattern, '/').len() ==> extracted_params(
            path,
            pattern,
        ) == Map::<Seq<char>, Seq<char>>::empty(),
        nonempty_pieces(path, '/').len() == nonempty_pieces(pattern, '/').len() ==> {
            let pieces = nonempty_pieces(pattern, '/');
            let values = nonempty_pieces(path, '/');
            &&& forall|k: Seq<char>|
                #[trigger] extracted_params(path, pattern).contains_key(k) <==> exists|i: int|
                    0 <= i < pieces.len() && is_param_piece(pieces[i]) && pieces[i].drop_first() == k
            &&& forall|i: int|
                0 <= i < pieces.len() && is_param_piece(pieces[i]) && last_with_name(pieces, i)
                    ==> extracted_params(path, pattern)[#[trigger] pieces[i].drop_first()]
                    == values[i]
        },
{
    let pieces = nonempty_pieces(pattern, '/');
    let values = nonempty_pieces(path, '/');
    if values.len() == pieces.len() {
        lemma_collect_params(pieces, values);
    }
}

/// Extract parameters from a path based on a pattern
///
/// Both are taken without their leading and trailing slashes and split at
/// the remaining ones; when the piece counts differ no parameter is
/// extracted.
pub fn extract_params(path: &str, pattern: &str) -> (params: RouteParams)
    ensures
        params@ == extracted_params(path@, pattern@),
{
    let mut params = RouteParams::new();
    let path_segments = split_nonempty(path, '/');
    let pattern_segments = split_nonempty(pattern, '/');
    if path_segments.len() != pattern_segments.len() {
        return params;
    }
    let ghost pat = pattern_segments.deep_view();
    let ghost pth = path_segments.deep_view();
    let n = pattern_segments.len();
    let mut idx: usize = 0;
    assert(pat.take(0) =~= Seq::<Seq<char>>::empty());
    while idx < n
        invariant
            n == pat.len(),
            n == pth.len(),
            pat == pattern_segments.deep_view(),
            pth == path_segments.deep_view(),
            idx <= n,
            params@ == collect_params(pat.take(idx as int), pth.take(idx as int)),
        decreases n - idx,
    {
        assert(pat.take(idx + 1).drop_last() =~= pat.take(idx as int));
        assert(pth.take(idx + 1).drop_last() =~= pth.take(idx as int));
        assert(pat.take(idx + 1).last() == pattern_segments[idx as int]@);
        assert(pth.take(idx + 1).last() == path_segments[idx as int]@);
        let segment = pattern_segments[idx].as_str();
        let len = segment.unicode_len();
        if len > 0 && segment.get_char(0) == ':' {
            let param_name = String::from_str(segment.substring_char(1, len));
            assert(param_name@ =~= segment@.drop_first());
            params.insert(param_name, path_segments[idx].clone());
        }
        idx = idx + 1;
    }
    assert(pat.take(n as int) =~= pat);
    assert(pth.take(n as int) =~= pth);
    params
}

impl Clone for RouteParams {
    fn clone(&self) -> (copy: Self)
        ensures
            copy@ == self@,
    {
        proof {
            use_type_invariant(self);
        }
        let n = self.entries.len();
        let mut entries: Vec<(String, String)> = Vec::new();
        let mut i: usize = 0;
        while i < n
            invariant
                n == self.entries.len(),
                i <= n,
                entries@ == self.entries@.take(i as int),
            decreases n - i,
        {
            let name = self.entries[i].0.clone();
            let value = self.entries[i].1.clone();
            entries.push((name, value));
            assert(entries@ =~= self.entries@.take(i + 1));
            i = i + 1;
        }
        assert(entries@ =~= self.entries@);
        assert(entries.deep_view() =~= self.entries.deep_view());
        RouteParams { entries }
    }
}

} // verus!
