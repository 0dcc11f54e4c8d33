//! Paths as texts: their components.

use vstd::prelude::*;
use vstd::string::*;
use vstd::std_specs::iter::IteratorSpec;
use crate::order::compare_text;
use crate::order::Relation;

verus! {

/// The pieces of `s` between the occurrences of `sep`: one more than there
/// are separators, empty ones included.
pub open spec fn split(s: Seq<char>, sep: char) -> Seq<Seq<char>>
    decreases s.len(),
{
    if s.len() == 0 {
        seq![Seq::empty()]
    } else {
        let before = split(s.drop_last(), sep);
        if s.last() == sep {
            before.push(Seq::empty())
        } else {
            before.update(before.len() - 1, before.last().push(s.last()))
        }
    }
}

/// There is always at least one piece.
pub proof fn lemma_split_nonempty(s: Seq<char>, sep: char)
    ensures
        split(s, sep).len() >= 1,
    decreases s.len(),
{
    if s.len() > 0 {
        lemma_split_nonempty(s.drop_last(), sep);
    }
}

/// The pieces put together again, with `sep` between each two.
pub open spec fn glued(pieces: Seq<Seq<char>>, sep: char) -> Seq<char>
    decreases pieces.len(),
{
    if pieces.len() == 0 {
        Seq::empty()
    } else if pieces.len() == 1 {
        pieces[0]
    } else {
        glued(pieces.drop_last(), sep).push(sep) + pieces.last()
    }
}

/// Splitting loses nothing and leaves no separator: the pieces glued
/// together are the text again, and no piece holds the separator.
pub proof fn lemma_split_glues_back(s: Seq<char>, sep: char)
    ensures
        glued(split(s, sep), sep) == s,
        forall|i: int, j: int|
            0 <= i < split(s, sep).len() && 0 <= j < split(s, sep)[i].len() ==> (
            #[trigger] split(s, sep)[i][j]) != sep,
    decreases s.len(),
{
    let pieces = split(s, sep);
    if s.len() == 0 {
        assert(glued(pieces, sep) == pieces[0]);
        assert(pieces[0] =~= s);
    } else {
        let init = s.drop_last();
        let before = split(init, sep);
        lemma_split_glues_back(init, sep);
        lemma_split_nonempty(init, sep);
        let c = s.last();
        if c == sep {
            assert(pieces.drop_last() =~= before);
            assert(glued(pieces, sep) =~= init.push(sep));
            assert(init.push(sep) =~= s);
            assert forall|i: int, j: int|
                0 <= i < pieces.len() && 0 <= j < pieces[i].len() implies (#[trigger] pieces[i][j])
                != sep by {
                assert(pieces[i] == before[i]);
                assert(before[i][j] != sep);
            }
        } else {
            let last = before.len() - 1;
            assert(pieces.last() == before.last().push(c));
            if before.len() == 1 {
                assert(glued(before, sep) == before[0]);
                assert(glued(pieces, sep) == pieces[0]);
                assert(pieces[0] =~= s);
            } else {
                assert(pieces.drop_last() =~= before.drop_last());
                assert(glued(pieces, sep) =~= glued(before, sep).push(c));
                assert(init.push(c) =~= s);
            }
            assert forall|i: int, j: int|
                0 <= i < pieces.len() && 0 <= j < pieces[i].len() implies (#[trigger] pieces[i][j])
                != sep by {
                if i < last {
                    assert(pieces[i] == before[i]);
                    assert(before[i][j] != sep);
                } else if j < before[last].len() {
                    assert(pieces[i][j] == before[last][j]);
                    assert(before[last][j] != sep);
                }
            }
        }
    }
}

/// Cuts `text` at every occurrence of `sep`.
pub fn split_at_char(text: &str, sep: char) -> (pieces: Vec<String>)
    ensures
        pieces.deep_view() == split(text@, sep),
{
    let mut done: Vec<String> = Vec::new();
    let mut current = String::new();
    assert(text@.take(0) =~= Seq::<char>::empty());
    assert(done.deep_view().push(current@) =~= split(text@.take(0), sep));
    for c in it: text.chars()
        invariant
            it.seq() == text@,
            done.deep_view().push(current@) == split(text@.take(it.index() as int), sep),
    {
        let ghost i = it.index() as int;
        let ghost before = split(text@.take(i), sep);
        proof {
            assert(text@.take(i + 1).drop_last() =~= text@.take(i));
            assert(text@.take(i + 1).last() == c);
        }
        if c == sep {
            let ghost shown = done.deep_view();
            done.push(current);
            current = String::new();
            assert(done.deep_view() =~= shown.push(before.last()));
            assert(done.deep_view().push(current@) =~= before.push(Seq::empty()));
        } else {
            current.push(c);
            assert(done.deep_view().push(current@) =~= before.update(
                before.len() - 1,
                before.last().push(c),
            ));
        }
    }
    assert(text@.take(text@.len() as int) =~= text@);
    let ghost shown = done.deep_view();
    let ghost last = current@;
    done.push(current);
    assert(done.deep_view() =~= shown.push(last));
    done
}

/// A piece of a path that names something: not empty, and not `.`, which
/// stands for the directory it occurs in.
pub open spec fn is_meaningful(piece: Seq<char>) -> bool {
    piece.len() > 0 && piece != "."@
}

/// The meaningful ones among `pieces`, in their order.
pub open spec fn meaningful(pieces: Seq<Seq<char>>) -> Seq<Seq<char>>
    decreases pieces.len(),
{
    if pieces.len() == 0 {
        Seq::empty()
    } else if is_meaningful(pieces.last()) {
        meaningful(pieces.drop_last()).push(pieces.last())
    } else {
        meaningful(pieces.drop_last())
    }
}

/// What the first piece of a path stands for: an empty piece in front of a
/// separator is the root, written `/`; any other piece is a component as it
/// is, `.` too; the empty path has no component.
pub open spec fn leading(pieces: Seq<Seq<char>>) -> Seq<Seq<char>> {
    if pieces[0].len() > 0 {
        seq![pieces[0]]
    } else if pieces.len() > 1 {
        seq!["/"@]
    } else {
        Seq::empty()
    }
}

/// The components of a path: its pieces between the `/`, the first taken by
/// `leading`, of the others the meaningful ones. This is how the standard
/// library reads a path where `/` is the separator.
pub open spec fn components(path: Seq<char>) -> Seq<Seq<char>> {
    let pieces = split(path, '/');
    leading(pieces) + meaningful(pieces.skip(1))
}

/// Every meaningful piece is one of the pieces.
pub proof fn lemma_meaningful_are_pieces(pieces: Seq<Seq<char>>)
    ensures
        forall|i: int|
            0 <= i < meaningful(pieces).len() ==> is_meaningful(#[trigger] meaningful(pieces)[i])
                && pieces.contains(meaningful(pieces)[i]),
    decreases pieces.len(),
{
    if pieces.len() > 0 {
        let init = pieces.drop_last();
        lemma_meaningful_are_pieces(init);
        assert forall|i: int| 0 <= i < meaningful(pieces).len() implies is_meaningful(
            #[trigger] meaningful(pieces)[i],
        ) && pieces.contains(meaningful(pieces)[i]) by {
            if i < meaningful(init).len() {
                assert(meaningful(pieces)[i] == meaningful(init)[i]);
                let k = choose|k: int| 0 <= k < init.len() && init[k] == meaningful(init)[i];
                assert(pieces[k] == init[k]);
            } else {
                assert(meaningful(pieces)[i] == pieces[pieces.len() - 1]);
            }
        }
    }
}

/// No component of a path is empty, and none but the root holds a `/`.
pub proof fn lemma_components_are_names(path: Seq<char>)
    ensures
        forall|i: int|
            0 <= i < components(path).len() ==> (#[trigger] components(path)[i]).len() > 0,
        forall|i: int|
            0 <= i < components(path).len() ==> (#[trigger] components(path)[i]) == "/"@
                || !components(path)[i].contains('/'),
        forall|i: int|
            1 <= i < components(path).len() ==> is_meaningful(#[trigger] components(path)[i]),
{
    reveal_strlit("/");
    let pieces = split(path, '/');
    let rest = pieces.skip(1);
    let found = components(path);
    lemma_split_nonempty(path, '/');
    lemma_split_glues_back(path, '/');
    lemma_meaningful_are_pieces(rest);
    assert forall|i: int| 0 <= i < found.len() implies (#[trigger] found[i]).len() > 0 && (found[i]
        == "/"@ || !found[i].contains('/')) && (i >= 1 ==> is_meaningful(found[i])) by {
        if i < leading(pieces).len() {
            assert(found[i] == leading(pieces)[i]);
            if pieces[0].len() > 0 {
                if found[i].contains('/') {
                    let j = choose|j: int| 0 <= j < pieces[0].len() && pieces[0][j] == '/';
                    assert(pieces[0][j] != '/');
                }
            }
        } else {
            let m = i - leading(pieces).len();
            assert(found[i] == meaningful(rest)[m]);
            let k = choose|k: int| 0 <= k < rest.len() && rest[k] == meaningful(rest)[m];
            assert(rest[k] == pieces[k + 1]);
            if found[i].contains('/') {
                let j = choose|j: int| 0 <= j < found[i].len() && found[i][j] == '/';
                assert(pieces[k + 1][j] != '/');
            }
        }
    }
}

/// Splits a path into its components.
pub fn split_components(path: &str) -> (parts: Vec<String>)
    ensures
        parts.deep_view() == components(path@),
{
    let pieces = split_at_char(path, '/');
    proof {
        lemma_split_nonempty(path@, '/');
    }
    let ghost all = pieces.deep_view();
    let mut parts: Vec<String> = Vec::new();
    if !pieces[0].as_str().is_empty() {
        parts.push(pieces[0].clone());
    } else if pieces.len() > 1 {
        parts.push("/".to_owned());
    }
    assert(parts.deep_view() =~= leading(all));
    assert(all.skip(1).take(0) =~= Seq::<Seq<char>>::empty());
    assert(parts.deep_view() =~= leading(all) + meaningful(all.skip(1).take(0)));
    let mut i: usize = 1;
    while i < pieces.len()
        invariant
            1 <= i <= pieces.len(),
            all == pieces.deep_view(),
            parts.deep_view() == leading(all) + meaningful(all.skip(1).take(i - 1)),
        decreases pieces.len() - i,
    {
        let piece = pieces[i].as_str();
        let ghost seen = all.skip(1).take(i - 1);
        let ghost next = all.skip(1).take(i as int);
        proof {
            assert(next.drop_last() =~= seen);
            assert(next.last() == piece@);
        }
        if !piece.is_empty() && compare_text(piece, ".") != Relation::Equal {
            let ghost shown = parts.deep_view();
            parts.push(pieces[i].clone());
            assert(parts.deep_view() =~= shown.push(piece@));
        }
        assert(parts.deep_view() =~= leading(all) + meaningful(next));
        i += 1;
    }
    assert(all.skip(1).take(pieces.len() - 1) =~= all.skip(1));
    parts
}

/// What is left of `path` when the leading components that make up `base`
/// are taken off, or `None` where `path` does not begin with them.
pub uninterp spec fn stripped(path: Seq<char>, base: Seq<char>) -> Option<Seq<char>>;

/// `std::path::Path::strip_prefix`, on paths given as texts. The result is
/// the rest of `path` behind the components of `base`, as the standard
/// library cuts it, or nothing where `base` is no prefix of `path`; it
/// depends on the two texts alone.
#[verifier::external_body]
fn strip_prefix(path: &str, base: &str) -> (rest: Option<String>)
    ensures
        match rest {
            Some(r) => stripped(path@, base@) == Some(r@),
            None => stripped(path@, base@) is None,
        },
{
    match std::path::Path::new(path).strip_prefix(base) {
        Ok(rest) => Some(rest.display().to_string()),
        Err(_) => None,
    }
}

/// The path under which an entry is listed: what is left of its path below
/// the root, or its whole path where it does not lie below the root.
pub open spec fn relative_text(path: Seq<char>, rest: Option<Seq<char>>) -> Seq<char> {
    match rest {
        Some(r) => r,
        None => path,
    }
}

/// Picks the path under which an entry is listed, given what stripping the
/// root off its path left.
pub fn relative_or_whole(path: &str, rest: Option<String>) -> (listed: String)
    ensures
        listed@ == relative_text(
            path@,
            match rest {
                Some(r) => Some(r@),
                None => None,
            },
        ),
{
    match rest {
        Some(r) => r,
        None => path.to_owned(),
    }
}

/// The path of an entry relative to `root`; the whole path where the entry
/// does not lie below `root`.
pub fn to_relative(root: &str, path: &str) -> (listed: String)
    ensures
        listed@ == relative_text(path@, stripped(path@, root@)),
{
    let rest = strip_prefix(path, root);
    relative_or_whole(path, rest)
}

} // verus!
