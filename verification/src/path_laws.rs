//! What holds of paths and of error messages.

use crate::error::{Failure, ScoreError};
use crate::path;
use vstd::prelude::*;

verus! {

/// `name` with a second backquote after each backquote.
pub open spec fn quoted(name: Seq<char>) -> Seq<char>
    decreases name.len(),
{
    if name.len() == 0 {
        Seq::empty()
    } else if name.last() == '`' {
        quoted(name.drop_last()) + seq!['`', '`']
    } else {
        quoted(name.drop_last()).push(name.last())
    }
}

/// Whether `text` is how `name` is written in a path: as it is, where it holds neither a dot nor a
/// backquote, or between backquotes.
pub open spec fn is_text_of(text: Seq<char>, name: Seq<char>) -> bool {
    &&& name.len() > 0
    &&& {
        ||| text == name && forall|i: int|
            0 <= i < name.len() ==> #[trigger] name[i] != '.' && name[i] != '`'
        ||| text == seq!['`'] + quoted(name) + seq!['`']
    }
}

/// Doubling may be done from either end.
proof fn lemma_doubled(name: Seq<char>)
    ensures
        path::doubled(name) == quoted(name),
    decreases name.len(),
{
    if name.len() > 0 {
        let less = name.drop_last();
        lemma_doubled(less);
        assert(name =~= less + seq![name.last()]);
        lemma_doubled_appends(less, seq![name.last()]);
        let last = seq![name.last()];
        assert(last.drop_first() =~= Seq::<char>::empty());
        assert(path::doubled(last.drop_first()) =~= Seq::<char>::empty());
        if name.last() == '`' {
            assert(path::doubled(last) =~= seq!['`', '`']);
        } else {
            assert(path::doubled(last) =~= last);
            assert(quoted(less) + last =~= quoted(less).push(name.last()));
        }
    } else {
        assert(path::doubled(name) =~= Seq::<char>::empty());
    }
}

/// Doubling goes character by character.
proof fn lemma_doubled_appends(left: Seq<char>, right: Seq<char>)
    ensures
        path::doubled(left + right) == path::doubled(left) + path::doubled(right),
    decreases left.len(),
{
    if left.len() == 0 {
        assert(left + right =~= right);
        assert(path::doubled(left) =~= Seq::<char>::empty());
        assert(path::doubled(left) + path::doubled(right) =~= path::doubled(right));
    } else {
        assert((left + right).drop_first() =~= left.drop_first() + right);
        lemma_doubled_appends(left.drop_first(), right);
        let rest = path::doubled(left.drop_first());
        if left[0] == '`' {
            assert(seq!['`', '`'] + (rest + path::doubled(right)) =~= seq!['`', '`'] + rest
                + path::doubled(right));
        } else {
            assert(seq![left[0]] + (rest + path::doubled(right)) =~= seq![left[0]] + rest
                + path::doubled(right));
        }
    }
}

/// A name is a path of itself, as it is written.
pub proof fn law_written_name_is_a_path(text: Seq<char>, name: Seq<char>)
    requires
        is_text_of(text, name),
    ensures
        path::is_path(text, seq![name]),
{
    lemma_doubled(name);
    if text == seq!['`'] + quoted(name) + seq!['`'] {
        assert(path::is_written_path(text, seq![name], seq![true]));
    } else {
        assert(path::is_written_path(text, seq![name], seq![false]));
    }
}

/// A written name, a dot and a path make a path of the name and the names of the path.
pub proof fn law_dot_joins_paths(
    text: Seq<char>,
    name: Seq<char>,
    rest: Seq<char>,
    names: Seq<Seq<char>>,
)
    requires
        is_text_of(text, name),
        path::is_path(rest, names),
    ensures
        path::is_path(text + seq!['.'] + rest, seq![name] + names),
{
    lemma_doubled(name);
    let with_quotes = text == seq!['`'] + quoted(name) + seq!['`'];
    let marks = choose|marks: Seq<bool>| path::is_written_path(rest, names, marks);
    let all = seq![name] + names;
    let all_marks = seq![with_quotes] + marks;
    assert(all.drop_first() =~= names);
    assert(all_marks.drop_first() =~= marks);
    assert forall|i: int| 0 <= i < all.len() implies (#[trigger] all[i]).len() > 0 && (all_marks[i]
        || path::is_bare(all[i])) by {
        if i > 0 {
            assert(all[i] == names[i - 1]);
        }
    }
    assert(path::is_written_path(text + seq!['.'] + rest, all, all_marks));
}

/// Every path starts with its first name as it is written, and what follows is nothing, or a dot and
/// a path of the other names; so nothing else is a path.
pub proof fn law_path_starts_with_its_first_name(path: Seq<char>, names: Seq<Seq<char>>)
    requires
        path::is_path(path, names),
    ensures
        names.len() > 0,
        exists|text: Seq<char>|
            #[trigger] is_text_of(text, names[0]) && if names.len() == 1 {
                path == text
            } else {
                exists|rest: Seq<char>|
                    #[trigger] path::is_path(rest, names.drop_first()) && path == text + seq!['.']
                        + rest
            },
{
    let marks = choose|marks: Seq<bool>| path::is_written_path(path, names, marks);
    let text = path::written(names[0], marks[0]);
    lemma_doubled(names[0]);
    if !marks[0] {
        assert(path::is_bare(names[0]));
        assert forall|i: int| 0 <= i < names[0].len() implies #[trigger] names[0][i] != '.'
            && names[0][i] != '`' by {
            assert(names[0].contains(names[0][i]));
        }
    }
    assert(is_text_of(text, names[0]));
    if names.len() > 1 {
        let (more, more_marks) = (names.drop_first(), marks.drop_first());
        let rest = path::joined(more, more_marks);
        assert forall|i: int| 0 <= i < more.len() implies (#[trigger] more[i]).len() > 0 && (
        more_marks[i] || path::is_bare(more[i])) by {
            assert(more[i] == names[i + 1]);
        }
        assert(path::is_written_path(rest, more, more_marks));
        assert(path::is_path(rest, more));
    }
}

/// The names of a path are those that it is written for, and there are none only where it is no path.
pub proof fn law_names_of_a_path(path: Seq<char>)
    ensures
        forall|names: Seq<Seq<char>>| #[trigger]
            path::is_path(path, names) ==> path::path_names(path) == Some(names),
        path::path_names(path) is None ==> forall|names: Seq<Seq<char>>|
            !#[trigger] path::is_path(path, names),
        path::path_names(path) matches Some(names) ==> path::is_path(path, names),
{
    assert forall|names: Seq<Seq<char>>| #[trigger]
        path::is_path(path, names) implies path::path_names(path) == Some(names) by {
        let chosen = path::path_names(path).unwrap();
        path::law_path_has_one_reading(path, names, chosen);
    }
}

/// An error says of itself what it is, and for which column, field or name.
pub proof fn law_errors_are_told_apart(error: ScoreError)
    ensures
        error is BatchQueries <==> error@ is BatchQueries,
        error is InvalidQuery <==> error@ is InvalidQuery,
        error is UnsupportedElementType <==> error@ is UnsupportedElementType,
        error is StoredElementType <==> error@ is StoredElementType,
        error is StoredElements <==> error@ is StoredElements,
        error is DistanceNotFinite <==> error@ is DistanceNotFinite,
        error is InvalidColumnPath <==> error@ is InvalidColumnPath,
        error is MissingColumn <==> error@ is MissingColumn,
        error is MissingField <==> error@ is MissingField,
        error is NotAList <==> error@ is NotAList,
        error is NotAFixedSizeList <==> error@ is NotAFixedSizeList,
        error is MissingOutputColumn <==> error@ is MissingOutputColumn,
        error is MissingRowIds <==> error@ is MissingRowIds,
        error is MissingDistances <==> error@ is MissingDistances,
        error is InvalidCandidate <==> error@ is InvalidCandidate,
        error matches ScoreError::InvalidColumnPath { column, reason } ==> error@ == (
        Failure::InvalidColumnPath { column: column@ }),
        error matches ScoreError::MissingColumn { column } ==> error@ == (Failure::MissingColumn {
            column: column@,
        }),
        error matches ScoreError::MissingField { field, column } ==> error@ == (
        Failure::MissingField { field: field@, column: column@ }),
        error matches ScoreError::MissingOutputColumn { name } ==> error@ == (
        Failure::MissingOutputColumn { name: name@ }),
{
}

/// Every message names what it is about, whole and unchanged.
pub proof fn law_messages_name_their_subject(error: ScoreError)
    ensures
        error is BatchQueries ==> error.text()
            == "expected one logical multi-vector query, not batch queries"@,
        error is InvalidQuery ==> error.text()
            == "multi-vector query must contain only finite, non-null elements"@,
        error is UnsupportedElementType ==> error.text()
            == "unsupported multi-vector element type"@,
        error is StoredElementType ==> error.text() == "multi-vector stored element type mismatch"@,
        error is StoredElements ==> error.text()
            == "multi-vector stored subvectors must contain only finite, non-null elements"@,
        error is DistanceNotFinite ==> error.text() == "multi-vector distance is not finite"@,
        error is NotAList ==> error.text() == "multi-vector scoring requires a List column"@,
        error is NotAFixedSizeList ==> error.text() == "multi-vector row must be a FixedSizeList"@,
        error is MissingRowIds ==> error.text() == "indexed multi-vector scorer requires row IDs"@,
        error is MissingDistances ==> error.text()
            == "indexed multi-vector scorer requires distances"@,
        error is InvalidCandidate ==> error.text()
            == "indexed multi-vector candidate has invalid row ID or distance"@,
        error matches ScoreError::InvalidColumnPath { column, reason } ==> error.text()
            == "invalid vector column path '"@ + column@ + "': "@ + reason@,
        error matches ScoreError::MissingColumn { column } ==> error.text()
            == "missing vector column '"@ + column@ + "'"@,
        error matches ScoreError::MissingField { field, column } ==> error.text()
            == "missing struct field '"@ + field@ + "' in vector column '"@ + column@ + "'"@,
        error matches ScoreError::MissingOutputColumn { name } ==> error.text()
            == "missing score output column "@ + name@,
{
}

} // verus!
