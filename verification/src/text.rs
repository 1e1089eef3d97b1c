//! Character-level views of route paths and URLs: splitting at a separator,
//! keeping the non-empty pieces, and joining them back.

use vstd::prelude::*;

verus! {

/// The pieces of `s` between occurrences of `sep`, as `str::split` yields
/// them: a separator closes the current piece and opens a new, empty one;
/// any other character extends the current piece.
pub open spec fn split_pieces(s: Seq<char>, sep: char) -> Seq<Seq<char>>
    decreases s.len(),
{
    if s.len() == 0 {
        seq![Seq::empty()]
    } else {
        let init = split_pieces(s.drop_last(), sep);
        if s.last() == sep {
            init.push(Seq::empty())
        } else {
            init.update(init.len() - 1, init.last().push(s.last()))
        }
    }
}

/// Whether a piece holds at least one character.
pub open spec fn is_nonempty(piece: Seq<char>) -> bool {
    piece.len() > 0
}

/// The non-empty pieces of `s` between occurrences of `sep`, in order: what
/// `s.split(sep).filter(|p| !p.is_empty())` yields.
pub open spec fn nonempty_pieces(s: Seq<char>, sep: char) -> Seq<Seq<char>> {
    split_pieces(s, sep).filter(|piece: Seq<char>| is_nonempty(piece))
}

/// The pieces joined back together with one `sep` between neighbours.
pub open spec fn join_with(pieces: Seq<Seq<char>>, sep: char) -> Seq<char>
    decreases pieces.len(),
{
    if pieces.len() == 0 {
        Seq::empty()
    } else if pieces.len() == 1 {
        pieces[0]
    } else {
        join_with(pieces.drop_last(), sep) + seq![sep] + pieces.last()
    }
}

/// Whether a character has the Unicode `White_Space` property, the white
/// space that `str::trim` and `str::trim_start` remove.
pub open spec fn is_white_space(c: char) -> bool {
    ||| '\t' <= c <= '\r'
    ||| c == ' '
    ||| c == '\u{85}'
    ||| c == '\u{a0}'
    ||| c == '\u{1680}'
    ||| '\u{2000}' <= c <= '\u{200a}'
    ||| c == '\u{2028}'
    ||| c == '\u{2029}'
    ||| c == '\u{202f}'
    ||| c == '\u{205f}'
    ||| c == '\u{3000}'
}

/// The text without its leading white space.
pub open spec fn trim_leading_white_space(s: Seq<char>) -> Seq<char>
    decreases s.len(),
{
    if s.len() > 0 && is_white_space(s[0]) {
        trim_leading_white_space(s.drop_first())
    } else {
        s
    }
}

/// The text without its trailing white space.
pub open spec fn trim_trailing_white_space(s: Seq<char>) -> Seq<char>
    decreases s.len(),
{
    if s.len() > 0 && is_white_space(s.last()) {
        trim_trailing_white_space(s.drop_last())
    } else {
        s
    }
}

/// The text without its leading and trailing white space.
pub open spec fn trim_white_space(s: Seq<char>) -> Seq<char> {
    trim_trailing_white_space(trim_leading_white_space(s))
}

/// Splitting always yields at least one piece.
pub proof fn lemma_split_nonempty(s: Seq<char>, sep: char)
    ensures
        split_pieces(s, sep).len() >= 1,
    decreases s.len(),
{
    if s.len() > 0 {
        lemma_split_nonempty(s.drop_last(), sep);
    }
}

/// A text without the separator is a single piece.
pub proof fn lemma_split_without_sep(s: Seq<char>, sep: char)
    requires
        !s.contains(sep),
    ensures
        split_pieces(s, sep) == seq![s],
    decreases s.len(),
{
    if s.len() > 0 {
        let init = s.drop_last();
        assert(!init.contains(sep)) by {
            if init.contains(sep) {
                let k = choose|k: int| 0 <= k < init.len() && init[k] == sep;
                assert(s[k] == sep);
            }
        }
        lemma_split_without_sep(init, sep);
        assert(s.last() != sep) by {
            assert(s[s.len() - 1] == s.last());
        }
        assert(init.push(s.last()) =~= s);
        assert(seq![init].update(0, init.push(s.last())) =~= seq![s]);
    } else {
        assert(s =~= Seq::<char>::empty());
    }
}

/// Splitting at a separator between two texts splits each text on its own.
pub proof fn lemma_split_concat(a: Seq<char>, b: Seq<char>, sep: char)
    ensures
        split_pieces(a + seq![sep] + b, sep) == split_pieces(a, sep) + split_pieces(b, sep),
    decreases b.len(),
{
    let ab = a + seq![sep] + b;
    if b.len() == 0 {
        assert(ab.drop_last() =~= a);
        assert(split_pieces(a, sep).push(Seq::empty()) =~= split_pieces(a, sep) + seq![
            Seq::<char>::empty(),
        ]);
    } else {
        lemma_split_concat(a, b.drop_last(), sep);
        lemma_split_nonempty(b.drop_last(), sep);
        lemma_split_nonempty(a, sep);
        assert(ab.drop_last() =~= a + seq![sep] + b.drop_last());
        let pa = split_pieces(a, sep);
        let pb = split_pieces(b.drop_last(), sep);
        if b.last() == sep {
            assert((pa + pb).push(Seq::empty()) =~= pa + pb.push(Seq::empty()));
        } else {
            let x = pa + pb;
            assert(x.update(x.len() - 1, x.last().push(b.last())) =~= pa + pb.update(
                pb.len() - 1,
                pb.last().push(b.last()),
            ));
        }
    }
}

/// Every character of every piece comes from the text and is not the separator.
pub proof fn lemma_split_chars(s: Seq<char>, sep: char)
    ensures
        forall|i: int, c: char|
            0 <= i < split_pieces(s, sep).len() && #[trigger] split_pieces(s, sep)[i].contains(c)
                ==> s.contains(c) && c != sep,
    decreases s.len(),
{
    if s.len() > 0 {
        let init = s.drop_last();
        lemma_split_chars(init, sep);
        lemma_split_nonempty(init, sep);
        let pi = split_pieces(init, sep);
        assert forall|i: int, c: char|
            0 <= i < split_pieces(s, sep).len() && #[trigger] split_pieces(s, sep)[i].contains(c)
            implies s.contains(c) && c != sep by {
            let k = choose|k: int| 0 <= k < split_pieces(s, sep)[i].len() && split_pieces(s, sep)[i][k] == c;
            if s.last() == sep {
                if i < pi.len() {
                    assert(pi[i].contains(c));
                    let m = choose|m: int| 0 <= m < init.len() && init[m] == c;
                    assert(s[m] == c);
                }
            } else {
                if i < pi.len() - 1 {
                    assert(pi[i].contains(c));
                    let m = choose|m: int| 0 <= m < init.len() && init[m] == c;
                    assert(s[m] == c);
                } else {
                    let piece = pi.last().push(s.last());
                    if k < pi.last().len() {
                        assert(pi[i][k] == c);
                        assert(pi[i].contains(c));
                        let m = choose|m: int| 0 <= m < init.len() && init[m] == c;
                        assert(s[m] == c);
                    } else {
                        assert(c == s.last());
                        assert(s[s.len() - 1] == c);
                    }
                }
            }
        }
    }
}

/// Joining pieces that are free of the separator, then splitting, gives the pieces back.
pub proof fn lemma_split_join(pieces: Seq<Seq<char>>, sep: char)
    requires
        pieces.len() >= 1,
        forall|i: int| 0 <= i < pieces.len() ==> !(#[trigger] pieces[i]).contains(sep),
    ensures
        split_pieces(join_with(pieces, sep), sep) == pieces,
    decreases pieces.len(),
{
    if pieces.len() == 1 {
        lemma_split_without_sep(pieces[0], sep);
        assert(seq![pieces[0]] =~= pieces);
    } else {
        let init = pieces.drop_last();
        assert forall|i: int| 0 <= i < init.len() implies !(#[trigger] init[i]).contains(sep) by {
            assert(init[i] == pieces[i]);
        }
        lemma_split_join(init, sep);
        lemma_split_concat(join_with(init, sep), pieces.last(), sep);
        assert(!pieces[pieces.len() - 1].contains(sep));
        lemma_split_without_sep(pieces.last(), sep);
        assert(init + seq![pieces.last()] =~= pieces);
    }
}

/// Filtering keeps a sequence whose elements all pass whole.
pub proof fn lemma_filter_keeps_all(s: Seq<Seq<char>>, pred: spec_fn(Seq<char>) -> bool)
    requires
        forall|i: int| 0 <= i < s.len() ==> pred(#[trigger] s[i]),
    ensures
        s.filter(pred) == s,
    decreases s.len(),
{
    if s.len() > 0 {
        let init = s.drop_last();
        assert forall|i: int| 0 <= i < init.len() implies pred(#[trigger] init[i]) by {
            assert(init[i] == s[i]);
        }
        lemma_filter_keeps_all(init, pred);
        init.lemma_filter_push(s.last(), pred);
        assert(pred(s[s.len() - 1]));
        assert(init.push(s.last()) =~= s);
    }
}

/// Every non-empty piece has at least one character.
pub proof fn lemma_nonempty_pieces_nonempty(s: Seq<char>, sep: char)
    ensures
        forall|i: int|
            0 <= i < nonempty_pieces(s, sep).len() ==> (#[trigger] nonempty_pieces(s, sep)[i]).len()
                > 0,
{
    let pred = |piece: Seq<char>| is_nonempty(piece);
    assert forall|i: int| 0 <= i < nonempty_pieces(s, sep).len() implies (#[trigger] nonempty_pieces(
        s,
        sep,
    )[i]).len() > 0 by {
        split_pieces(s, sep).lemma_filter_pred(pred, i);
    }
}

/// Every character of a non-empty piece comes from the text and is not the
/// separator, and no such piece is empty.
pub proof fn lemma_nonempty_pieces_chars(s: Seq<char>, sep: char)
    ensures
        forall|i: int, c: char|
            0 <= i < nonempty_pieces(s, sep).len() && #[trigger] nonempty_pieces(s, sep)[i].contains(c)
                ==> s.contains(c) && c != sep,
        forall|i: int|
            0 <= i < nonempty_pieces(s, sep).len() ==> (#[trigger] nonempty_pieces(s, sep)[i]).len()
                > 0,
{
    let pred = |piece: Seq<char>| is_nonempty(piece);
    let pieces = split_pieces(s, sep);
    lemma_nonempty_pieces_nonempty(s, sep);
    lemma_split_chars(s, sep);
    assert forall|i: int, c: char|
        0 <= i < nonempty_pieces(s, sep).len() && #[trigger] nonempty_pieces(s, sep)[i].contains(c)
        implies s.contains(c) && c != sep by {
        let piece = nonempty_pieces(s, sep)[i];
        assert(pieces.filter(pred).contains(piece));
        pieces.lemma_filter_contains_rev(pred, piece);
        let k = choose|k: int| 0 <= k < pieces.len() && pieces[k] == piece;
        assert(pieces[k].contains(c));
    }
}

/// Joining non-empty pieces free of the separator gives a text that neither
/// starts nor ends with the separator, never holds two separators in a row,
/// and holds no character outside the pieces but the separator.
pub proof fn lemma_join_shape(pieces: Seq<Seq<char>>, sep: char)
    requires
        pieces.len() >= 1,
        forall|i: int|
            0 <= i < pieces.len() ==> (#[trigger] pieces[i]).len() > 0 && !pieces[i].contains(sep),
    ensures
        join_with(pieces, sep).len() > 0,
        join_with(pieces, sep)[0] != sep,
        join_with(pieces, sep).last() != sep,
        forall|i: int|
            0 <= i < join_with(pieces, sep).len() - 1 ==> !(#[trigger] join_with(pieces, sep)[i] == sep
                && join_with(pieces, sep)[i + 1] == sep),
        forall|c: char|
            #[trigger] join_with(pieces, sep).contains(c) ==> c == sep || exists|k: int|
                0 <= k < pieces.len() && pieces[k].contains(c),
    decreases pieces.len(),
{
    let j = join_with(pieces, sep);
    if pieces.len() == 1 {
        assert(!pieces[0].contains(sep));
        assert(pieces[0][0] != sep) by {
            if pieces[0][0] == sep {
                assert(pieces[0].contains(sep));
            }
        }
        assert(pieces[0].last() != sep) by {
            if pieces[0].last() == sep {
                assert(pieces[0][pieces[0].len() - 1] == sep);
            }
        }
        assert forall|i: int| 0 <= i < j.len() - 1 implies !(#[trigger] j[i] == sep && j[i + 1]
            == sep) by {
            if j[i] == sep {
                assert(pieces[0].contains(sep));
            }
        }
        assert forall|c: char| #[trigger] j.contains(c) implies c == sep || exists|k: int|
            0 <= k < pieces.len() && pieces[k].contains(c) by {
            assert(pieces[0].contains(c));
        }
    } else {
        let init = pieces.drop_last();
        let last = pieces.last();
        assert forall|i: int| 0 <= i < init.len() implies (#[trigger] init[i]).len() > 0
            && !init[i].contains(sep) by {
            assert(init[i] == pieces[i]);
        }
        lemma_join_shape(init, sep);
        let ji = join_with(init, sep);
        assert(j == ji + seq![sep] + last);
        assert(last.len() > 0 && !last.contains(sep)) by {
            assert(pieces[pieces.len() - 1] == last);
        }
        assert(last[0] != sep) by {
            if last[0] == sep {
                assert(last.contains(sep));
            }
        }
        assert(last.last() != sep) by {
            if last.last() == sep {
                assert(last[last.len() - 1] == sep);
            }
        }
        assert(j[0] == ji[0]);
        assert(j.last() == last.last());
        assert forall|i: int| 0 <= i < j.len() - 1 implies !(#[trigger] j[i] == sep && j[i + 1]
            == sep) by {
            if i < ji.len() - 1 {
                assert(j[i] == ji[i] && j[i + 1] == ji[i + 1]);
            } else if i == ji.len() - 1 {
                assert(j[i] == ji.last());
            } else if i == ji.len() {
                assert(j[i + 1] == last[0]);
            } else {
                assert(j[i] == last[i - ji.len() - 1]);
                if j[i] == sep {
                    assert(last.contains(sep));
                }
            }
        }
        assert forall|c: char| #[trigger] j.contains(c) implies c == sep || exists|k: int|
            0 <= k < pieces.len() && pieces[k].contains(c) by {
            let m = choose|m: int| 0 <= m < j.len() && j[m] == c;
            if m < ji.len() {
                assert(ji[m] == c);
                assert(ji.contains(c));
                if c != sep {
                    let k = choose|k: int| 0 <= k < init.len() && init[k].contains(c);
                    assert(pieces[k] == init[k]);
                }
            } else if m > ji.len() {
                assert(last[m - ji.len() - 1] == c);
                assert(last.contains(c));
                assert(pieces[pieces.len() - 1] == last);
            }
        }
    }
}

/// Copies the characters of `s` into a vector.
pub fn to_chars(s: &str) -> (chars: Vec<char>)
    ensures
        chars@ == s@,
{
    let mut chars: Vec<char> = Vec::new();
    let n = s.unicode_len();
    let mut i: usize = 0;
    while i < n
        invariant
            n == s@.len(),
            i <= n,
            chars@ == s@.take(i as int),
        decreases n - i,
    {
        let c = s.get_char(i);
        chars.push(c);
        i = i + 1;
        assert(chars@ =~= s@.take(i as int));
    }
    assert(s@.take(n as int) =~= s@);
    chars
}

/// Splits `s` at every `sep` and keeps the non-empty pieces, in order.
#[verifier::rlimit(40)]
pub fn split_nonempty(s: &str, sep: char) -> (pieces: Vec<String>)
    ensures
        pieces.deep_view() == nonempty_pieces(s@, sep),
{
    broadcast use vstd::seq_lib::group_seq_properties;

    let chars = to_chars(s);
    let n = chars.len();
    let mut pieces: Vec<String> = Vec::new();
    let mut start: usize = 0;
    let ghost mut done: Seq<Seq<char>> = seq![];
    let ghost ne = |piece: Seq<char>| is_nonempty(piece);
    let mut i: usize = 0;
    assert(s@.take(0) =~= Seq::<char>::empty());
    assert(s@.subrange(0, 0) =~= Seq::<char>::empty());
    assert(done.push(Seq::<char>::empty()) =~= seq![Seq::<char>::empty()]);
    while i < n
        invariant
            chars@ == s@,
            n == s@.len(),
            start <= i <= n,
            split_pieces(s@.take(i as int), sep) == done.push(s@.subrange(start as int, i as int)),
            pieces.deep_view() == done.filter(ne),
            ne == (|piece: Seq<char>| is_nonempty(piece)),
        decreases n - i,
    {
        let ghost cur = s@.subrange(start as int, i as int);
        assert(s@.take(i + 1).drop_last() =~= s@.take(i as int));
        if chars[i] == sep {
            if start < i {
                let piece = String::from_str(s.substring_char(start, i));
                pieces.push(piece);
            }
            proof {
                done.lemma_filter_push(cur, ne);
                done = done.push(cur);
                assert(s@.subrange(i + 1, i + 1) =~= Seq::<char>::empty());
                assert(pieces.deep_view() =~= done.filter(ne));
            }
            start = i + 1;
        } else {
            assert(cur.push(s@[i as int]) =~= s@.subrange(start as int, i + 1));
            assert(done.push(cur).update(done.len() as int, cur.push(s@[i as int])) =~= done.push(
                s@.subrange(start as int, i + 1),
            ));
        }
        i = i + 1;
    }
    assert(s@.take(n as int) =~= s@);
    let ghost cur = s@.subrange(start as int, n as int);
    proof {
        done.lemma_filter_push(cur, ne);
    }
    if start < n {
        let piece = String::from_str(s.substring_char(start, n));
        pieces.push(piece);
    }
    assert(pieces.deep_view() =~= done.push(cur).filter(ne));
    pieces
}

/// The text of `s` before its first `sep`, or all of `s` when it has none:
/// what `s.split(sep).next()` yields.
pub fn first_piece(s: &str, sep: char) -> (piece: String)
    ensures
        piece@ == split_pieces(s@, sep)[0],
{
    let chars = to_chars(s);
    let n = chars.len();
    let mut k: usize = 0;
    while k < n && chars[k] != sep
        invariant
            chars@ == s@,
            n == s@.len(),
            k <= n,
            forall|j: int| 0 <= j < k ==> s@[j] != sep,
        decreases n - k,
    {
        k = k + 1;
    }
    let ghost head = s@.take(k as int);
    assert(!head.contains(sep)) by {
        if head.contains(sep) {
            let j = choose|j: int| 0 <= j < head.len() && head[j] == sep;
            assert(s@[j] == sep);
        }
    }
    proof {
        lemma_split_without_sep(head, sep);
        if k < n {
            let tail = s@.skip(k + 1);
            assert(head + seq![sep] + tail =~= s@);
            lemma_split_concat(head, tail, sep);
        } else {
            assert(head =~= s@);
        }
    }
    String::from_str(s.substring_char(0, k))
}

/// Splits `s` at its first `sep`: the text before it, and the text after it
/// when there is one, as `str::split_once` does.
pub fn split_once(s: &str, sep: char) -> (parts: (String, Option<String>))
    ensures
        parts.0@ == split_pieces(s@, sep)[0],
        parts.1 is Some <==> s@.contains(sep),
        parts.1 matches Some(rest) ==> rest@ == s@.skip(parts.0@.len() as int + 1),
{
    let chars = to_chars(s);
    let n = chars.len();
    let mut k: usize = 0;
    while k < n && chars[k] != sep
        invariant
            chars@ == s@,
            n == s@.len(),
            k <= n,
            forall|j: int| 0 <= j < k ==> s@[j] != sep,
        decreases n - k,
    {
        k = k + 1;
    }
    let ghost head = s@.take(k as int);
    assert(!head.contains(sep)) by {
        if head.contains(sep) {
            let j = choose|j: int| 0 <= j < head.len() && head[j] == sep;
            assert(s@[j] == sep);
        }
    }
    proof {
        lemma_split_without_sep(head, sep);
        if k < n {
            let tail = s@.skip(k + 1);
            assert(head + seq![sep] + tail =~= s@);
            lemma_split_concat(head, tail, sep);
            assert(s@[k as int] == sep);
        } else {
            assert(head =~= s@);
            assert(!s@.contains(sep));
        }
    }
    let before = String::from_str(s.substring_char(0, k));
    if k < n {
        let after = String::from_str(s.substring_char(k + 1, n));
        assert(after@ =~= s@.skip(k + 1));
        (before, Some(after))
    } else {
        (before, None)
    }
}

/// Splits `s` at every `sep` and keeps all the pieces, empty ones too.
#[verifier::rlimit(40)]
pub fn split_all(s: &str, sep: char) -> (pieces: Vec<String>)
    ensures
        pieces.deep_view() == split_pieces(s@, sep),
{
    let chars = to_chars(s);
    let n = chars.len();
    let mut pieces: Vec<String> = Vec::new();
    let mut start: usize = 0;
    let mut i: usize = 0;
    assert(s@.take(0) =~= Seq::<char>::empty());
    assert(s@.subrange(0, 0) =~= Seq::<char>::empty());
    assert(pieces.deep_view().push(Seq::<char>::empty()) =~= seq![Seq::<char>::empty()]);
    while i < n
        invariant
            chars@ == s@,
            n == s@.len(),
            start <= i <= n,
            split_pieces(s@.take(i as int), sep) == pieces.deep_view().push(
                s@.subrange(start as int, i as int),
            ),
        decreases n - i,
    {
        let ghost cur = s@.subrange(start as int, i as int);
        let ghost done = pieces.deep_view();
        assert(s@.take(i + 1).drop_last() =~= s@.take(i as int));
        if chars[i] == sep {
            let piece = String::from_str(s.substring_char(start, i));
            pieces.push(piece);
            assert(pieces.deep_view() =~= done.push(cur));
            assert(s@.subrange(i + 1, i + 1) =~= Seq::<char>::empty());
            start = i + 1;
        } else {
            assert(cur.push(s@[i as int]) =~= s@.subrange(start as int, i + 1));
            assert(done.push(cur).update(done.len() as int, cur.push(s@[i as int])) =~= done.push(
                s@.subrange(start as int, i + 1),
            ));
        }
        i = i + 1;
    }
    assert(s@.take(n as int) =~= s@);
    let ghost done = pieces.deep_view();
    let piece = String::from_str(s.substring_char(start, n));
    pieces.push(piece);
    assert(pieces.deep_view() =~= done.push(s@.subrange(start as int, n as int)));
    pieces
}

/// Whether a character occurs in the text.
pub fn has_char(chars: &Vec<char>, c: char) -> (found: bool)
    ensures
        found == chars@.contains(c),
{
    let n = chars.len();
    let mut i: usize = 0;
    while i < n
        invariant
            n == chars@.len(),
            i <= n,
            forall|j: int| 0 <= j < i ==> chars@[j] != c,
        decreases n - i,
    {
        if chars[i] == c {
            assert(chars@[i as int] == c);
            return true;
        }
        i = i + 1;
    }
    false
}

/// A slash followed by the pieces joined with slashes.
pub fn slash_joined(pieces: &Vec<String>) -> (joined: String)
    ensures
        joined@ == seq!['/'] + join_with(pieces.deep_view(), '/'),
{
    proof {
        reveal_strlit("/");
    }
    let mut joined = String::from_str("/");
    let n = pieces.len();
    let mut i: usize = 0;
    assert(pieces.deep_view().take(0) =~= Seq::<Seq<char>>::empty());
    assert(joined@ =~= seq!['/'] + join_with(pieces.deep_view().take(0), '/'));
    while i < n
        invariant
            n == pieces.len(),
            i <= n,
            joined@ == seq!['/'] + join_with(pieces.deep_view().take(i as int), '/'),
            "/"@ == seq!['/'],
        decreases n - i,
    {
        let ghost before = pieces.deep_view().take(i as int);
        let ghost after = pieces.deep_view().take(i + 1);
        assert(after.drop_last() =~= before);
        assert(after.last() == pieces[i as int]@);
        if i > 0 {
            joined.append("/");
        } else {
            assert(before =~= Seq::<Seq<char>>::empty());
        }
        joined.append(pieces[i].as_str());
        proof {
            if i == 0 {
                assert(after =~= seq![pieces[0]@]);
            }
        }
        assert(joined@ =~= seq!['/'] + join_with(after, '/'));
        i = i + 1;
    }
    assert(pieces.deep_view().take(n as int) =~= pieces.deep_view());
    joined
}

} // verus!
