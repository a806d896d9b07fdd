//! Paths to nested columns.
//!
//! A path is a sequence of field names joined by dots. A name may be quoted with backquotes, and
//! must be where it holds a dot or a backquote; a backquote inside quotes is doubled.

use vstd::prelude::*;

verus! {

/// The error of a path that cannot be parsed.
#[verifier::external_type_specification]
#[verifier::external_body]
pub struct ExPathError(lance_core::Error);

/// `name` with each backquote doubled.
pub open spec fn doubled(name: Seq<char>) -> Seq<char>
    decreases name.len(),
{
    if name.len() == 0 {
        name
    } else if name[0] == '`' {
        seq!['`', '`'] + doubled(name.drop_first())
    } else {
        seq![name[0]] + doubled(name.drop_first())
    }
}

/// A field name as it is written in a path.
pub open spec fn written(name: Seq<char>, quoted: bool) -> Seq<char> {
    if quoted {
        seq!['`'] + doubled(name) + seq!['`']
    } else {
        name
    }
}

/// The field names joined by dots; `quoted` says which are quoted.
pub open spec fn joined(names: Seq<Seq<char>>, quoted: Seq<bool>) -> Seq<char>
    decreases names.len(),
{
    if names.len() == 0 {
        Seq::empty()
    } else if names.len() == 1 {
        written(names[0], quoted[0])
    } else {
        written(names[0], quoted[0]) + seq!['.'] + joined(names.drop_first(), quoted.drop_first())
    }
}

/// Whether a field name needs no quotes.
pub open spec fn is_bare(name: Seq<char>) -> bool {
    !name.contains('.') && !name.contains('`')
}

/// Whether `path` is the path of the field names `names`, with the quotes that `quoted` tells.
pub open spec fn is_written_path(
    path: Seq<char>,
    names: Seq<Seq<char>>,
    quoted: Seq<bool>,
) -> bool {
    &&& names.len() > 0
    &&& quoted.len() == names.len()
    &&& forall|i: int| 0 <= i < names.len() ==> (#[trigger] names[i]).len() > 0
    &&& forall|i: int| 0 <= i < names.len() ==> quoted[i] || is_bare(#[trigger] names[i])
    &&& path == joined(names, quoted)
}

/// Whether `path` is a path of the field names `names`.
pub open spec fn is_path(path: Seq<char>, names: Seq<Seq<char>>) -> bool {
    exists|quoted: Seq<bool>| is_written_path(path, names, quoted)
}

/// The field names of `path`, if it is a path.
pub open spec fn path_names(path: Seq<char>) -> Option<Seq<Seq<char>>> {
    if exists|names: Seq<Seq<char>>| is_path(path, names) {
        Some(choose|names: Seq<Seq<char>>| is_path(path, names))
    } else {
        None
    }
}

/// The characters of each string.
pub open spec fn characters(names: Seq<String>) -> Seq<Seq<char>> {
    names.map_values(|name: String| name@)
}

/// Whether `text` is among the texts of the errors that `lance_core`'s path parser gives for `path`.
pub uninterp spec fn is_path_error(path: Seq<char>, text: Seq<char>) -> bool;

/// Splits a path by `lance_core::datatypes::parse_field_path`.
///
/// The contract claims of that function that it succeeds exactly on the paths described above and
/// then gives field names that the path is written for. Of its error it claims that, displayed, it is
/// an error text for the path. That text names a place in the parser's source, so it is not claimed
/// to follow from the path.
#[verifier::external_body]
fn parse_field_path(path: &str) -> (result: Result<Vec<String>, lance_core::Error>)
    ensures
        result matches Ok(names) ==> is_path(path@, characters(names@)),
        result is Err ==> forall|other: Seq<Seq<char>>| !#[trigger] is_path(path@, other),
        result matches Err(error) ==> forall|text: String| #[trigger]
            vstd::string::to_string_from_display_ensures(&error, text) ==> is_path_error(
                path@,
                text@,
            ),
{
    lance_core::datatypes::parse_field_path(path)
}

/// The field names of `path`, or what is wrong with it.
pub fn split_path(path: &str) -> (result: Result<Vec<String>, String>)
    ensures
        result is Ok <==> path_names(path@) is Some,
        result matches Ok(names) ==> path_names(path@) == Some(characters(names@)),
        result matches Ok(names) ==> names@.len() > 0,
        result matches Err(text) ==> is_path_error(path@, text@),
{
    match parse_field_path(path) {
        Ok(names) => {
            proof {
                assert(characters(names@).len() == names@.len());
                law_path_has_one_reading(
                    path@,
                    characters(names@),
                    choose|other: Seq<Seq<char>>| is_path(path@, other),
                );
            }
            Ok(names)
        },
        Err(error) => Err(error.to_string()),
    }
}

/// The path of one bare field name is the name itself.
pub proof fn law_bare_name_is_its_own_path(name: Seq<char>)
    requires
        name.len() > 0,
        is_bare(name),
    ensures
        is_path(name, seq![name]),
{
    assert(is_written_path(name, seq![name], seq![false]));
}

/// A path is written for only one sequence of field names.
pub proof fn law_path_has_one_reading(
    path: Seq<char>,
    left: Seq<Seq<char>>,
    right: Seq<Seq<char>>,
)
    requires
        is_path(path, left),
        is_path(path, right),
    ensures
        left == right,
{
    let left_quoted = choose|quoted: Seq<bool>| is_written_path(path, left, quoted);
    let right_quoted = choose|quoted: Seq<bool>| is_written_path(path, right, quoted);
    lemma_one_reading(path, left, left_quoted, right, right_quoted);
}

/// What follows the first field name: nothing, or a dot and the other names.
spec fn tail(names: Seq<Seq<char>>, quoted: Seq<bool>) -> Seq<char> {
    if names.len() == 1 {
        Seq::empty()
    } else {
        seq!['.'] + joined(names.drop_first(), quoted.drop_first())
    }
}

/// See [`law_path_has_one_reading`].
proof fn lemma_one_reading(
    path: Seq<char>,
    left: Seq<Seq<char>>,
    left_quoted: Seq<bool>,
    right: Seq<Seq<char>>,
    right_quoted: Seq<bool>,
)
    requires
        is_written_path(path, left, left_quoted),
        is_written_path(path, right, right_quoted),
    ensures
        left == right,
    decreases left.len(),
{
    let (a, b) = (left[0], right[0]);
    let (x, y) = (tail(left, left_quoted), tail(right, right_quoted));
    assert(path =~= written(a, left_quoted[0]) + x);
    assert(path =~= written(b, right_quoted[0]) + y);
    assert(x.len() > 0 ==> x[0] == '.');
    assert(y.len() > 0 ==> y[0] == '.');
    assert(left_quoted[0] ==> path[0] == '`');
    assert(right_quoted[0] ==> path[0] == '`');
    if !left_quoted[0] {
        assert(path[0] == a[0]);
        assert(a.contains(a[0]));
    }
    if !right_quoted[0] {
        assert(path[0] == b[0]);
        assert(b.contains(b[0]));
    }
    assert(left_quoted[0] == right_quoted[0]);
    if left_quoted[0] {
        assert(path.drop_first() =~= doubled(a) + seq!['`'] + x);
        assert(path.drop_first() =~= doubled(b) + seq!['`'] + y);
        lemma_one_quoted(a, x, b, y);
    } else {
        if a.len() < b.len() {
            assert(path[a.len() as int] == x[0]);
            assert(path[a.len() as int] == b[a.len() as int]);
            assert(b.contains('.'));
        }
        if b.len() < a.len() {
            assert(path[b.len() as int] == y[0]);
            assert(path[b.len() as int] == a[b.len() as int]);
            assert(a.contains('.'));
        }
        assert(a =~= path.take(a.len() as int));
        assert(b =~= path.take(a.len() as int));
        assert(x =~= path.skip(a.len() as int));
        assert(y =~= path.skip(a.len() as int));
    }
    if left.len() == 1 {
        if right.len() > 1 {
            assert(y.len() > 0);
        }
        assert(left =~= right);
    } else {
        assert(x.len() > 0);
        let (more, more_quoted) = (left.drop_first(), left_quoted.drop_first());
        let (others, others_quoted) = (right.drop_first(), right_quoted.drop_first());
        assert(joined(more, more_quoted) =~= x.drop_first());
        assert(joined(others, others_quoted) =~= y.drop_first());
        assert forall|i: int| 0 <= i < more.len() implies (#[trigger] more[i]).len() > 0 && (
        more_quoted[i] || is_bare(more[i])) by {
            assert(more[i] == left[i + 1]);
        }
        assert forall|i: int| 0 <= i < others.len() implies (#[trigger] others[i]).len() > 0 && (
        others_quoted[i] || is_bare(others[i])) by {
            assert(others[i] == right[i + 1]);
        }
        lemma_one_reading(x.drop_first(), more, more_quoted, others, others_quoted);
        assert(left =~= seq![a] + more);
        assert(right =~= seq![b] + others);
    }
}

/// A quoted name ends at the first backquote that is not doubled.
proof fn lemma_one_quoted(a: Seq<char>, x: Seq<char>, b: Seq<char>, y: Seq<char>)
    requires
        doubled(a) + seq!['`'] + x == doubled(b) + seq!['`'] + y,
        x.len() > 0 ==> x[0] != '`',
        y.len() > 0 ==> y[0] != '`',
    ensures
        a == b,
        x == y,
    decreases a.len(),
{
    let text = doubled(a) + seq!['`'] + x;
    if a.len() == 0 && b.len() == 0 {
        assert(x =~= text.drop_first());
        assert(y =~= text.drop_first());
        assert(a =~= b);
    } else if a.len() == 0 {
        assert(text[0] == '`');
        assert(b[0] == '`');
        assert(text[1] == '`');
        assert(text[1] == x[0]);
    } else if b.len() == 0 {
        assert(text[0] == '`');
        assert(a[0] == '`');
        assert(text[1] == '`');
        assert(text[1] == y[0]);
    } else {
        assert(text[0] == a[0]);
        assert(text[0] == b[0]);
        let (c, d) = (a.drop_first(), b.drop_first());
        if a[0] == '`' {
            assert(doubled(c) + seq!['`'] + x =~= text.skip(2));
            assert(doubled(d) + seq!['`'] + y =~= text.skip(2));
        } else {
            assert(doubled(c) + seq!['`'] + x =~= text.skip(1));
            assert(doubled(d) + seq!['`'] + y =~= text.skip(1));
        }
        lemma_one_quoted(c, x, d, y);
        assert(a =~= seq![a[0]] + c);
        assert(b =~= seq![b[0]] + d);
    }
}

} // verus!
