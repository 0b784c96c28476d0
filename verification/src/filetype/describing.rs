//! Putting what a file is into words.

use vstd::prelude::*;
use vstd::string::StringExecFns;

use crate::filetype::extensions;
use crate::filetype::extensions::by_extension;
use crate::filetype::names;
use crate::filetype::names::by_name;
use crate::text;
use crate::text::{characters_of, string_of, to_lower, to_upper};

verus! {

/// Where the last dot of `name` is.
pub open spec fn last_dot(name: Seq<char>) -> Option<int>
    decreases name.len(),
{
    if name.len() == 0 {
        None
    } else if name.last() == '.' {
        Some(name.len() - 1)
    } else {
        last_dot(name.drop_last())
    }
}

/// What stands behind the last dot of `name`, where something stands on
/// either side of it. A leading dot is a hidden name, not an extension:
/// `.bashrc`.
pub open spec fn extension_of(name: Seq<char>) -> Option<Seq<char>> {
    match last_dot(name) {
        Some(dot) => if 0 < dot < name.len() - 1 {
            Some(name.skip(dot + 1))
        } else {
            None
        },
        None => None,
    }
}

/// A short description of the file called `name`.
pub open spec fn description(name: Seq<char>) -> Seq<char> {
    let lower = text::lower_text(name);
    match names::known_name(lower) {
        Some(known) => known,
        None => match extension_of(lower) {
            Some(extension) => match extensions::known_extension(extension) {
                Some(known) => known,
                None => text::upper_text(extension) + " file"@,
            },
            None => "File"@,
        },
    }
}

/// What stands behind the last dot of `name`, where something stands on
/// either side of it.
fn find_extension(name: &Vec<char>) -> (extension: Option<Vec<char>>)
    ensures
        match extension {
            Some(extension) => extension_of(name@) == Some(extension@),
            None => extension_of(name@) is None,
        },
{
    let length: usize = name.len();
    let mut end: usize = length;
    assert(name@.take(end as int) =~= name@);
    while end > 0
        invariant
            end <= length,
            length == name@.len(),
            last_dot(name@) == last_dot(name@.take(end as int)),
        decreases end,
    {
        assert(name@.take(end as int).last() == name@[end - 1]);
        assert(name@.take(end as int).drop_last() =~= name@.take(end - 1));
        if name[end - 1] == '.' {
            if end == 1 || end == length {
                return None;
            }
            let extension = vstd::slice::slice_to_vec(
                vstd::slice::slice_subrange(name.as_slice(), end, length),
            );
            assert(extension@ =~= name@.skip(end as int));
            return Some(extension);
        }
        end = end - 1;
    }
    None
}

/// A short description of the file called `name`: `Java archive`,
/// `Disk image`, or `PARQUET file` for an extension it does not know.
pub fn describe(name: &str) -> (words: String)
    ensures
        words@ == description(name@),
{
    let lower = to_lower(&characters_of(name));
    if let Some(known) = by_name(string_of(&lower).as_str()) {
        return known.to_owned();
    }
    match find_extension(&lower) {
        Some(extension) => match by_extension(string_of(&extension).as_str()) {
            Some(known) => known.to_owned(),
            None => {
                let mut words = string_of(&to_upper(&extension));
                words.append(" file");
                words
            },
        },
        None => "File".to_owned(),
    }
}

/// Names that differ only in the case of their ASCII letters are described
/// alike.
pub proof fn lemma_any_case(left: Seq<char>, right: Seq<char>)
    requires
        text::lower_text(left) == text::lower_text(right),
    ensures
        description(left) == description(right),
{
}

/// A name without a dot but the one it starts or ends with has no extension:
/// it is what it is known as, or a file.
pub proof fn lemma_dot_name_has_no_extension(name: Seq<char>)
    requires
        forall|i: int| 0 < i < name.len() - 1 ==> #[trigger] name[i] != '.',
    ensures
        extension_of(name) is None,
{
    lemma_last_dot(name);
}

/// Where the last dot is, there is one.
proof fn lemma_last_dot(name: Seq<char>)
    ensures
        last_dot(name) matches Some(dot) ==> 0 <= dot < name.len() && name[dot] == '.',
    decreases name.len(),
{
    if name.len() > 0 && name.last() != '.' {
        lemma_last_dot(name.drop_last());
    }
}

proof fn lemma_last_dot_found(stem: Seq<char>, extension: Seq<char>)
    requires
        !extension.contains('.'),
    ensures
        last_dot(stem + seq!['.'] + extension) == Some(stem.len() as int),
    decreases extension.len(),
{
    let name = stem + seq!['.'] + extension;
    if extension.len() > 0 {
        assert(name.last() == extension.last());
        assert(extension.contains(extension.last()));
        assert(name.drop_last() =~= stem + seq!['.'] + extension.drop_last());
        assert(!extension.drop_last().contains('.')) by {
            if extension.drop_last().contains('.') {
                let i = choose|i: int|
                    0 <= i < extension.drop_last().len() && extension.drop_last()[i] == '.';
                assert(extension[i] == '.');
            }
        }
        lemma_last_dot_found(stem, extension.drop_last());
    } else {
        assert(name.last() == '.');
    }
}

/// What stands behind the last dot is the extension, whatever stands before
/// it, dots too; but for nothing there is none.
pub proof fn lemma_extension_behind_last_dot(stem: Seq<char>, extension: Seq<char>)
    requires
        !extension.contains('.'),
    ensures
        stem.len() > 0 && extension.len() > 0 ==> extension_of(stem + seq!['.'] + extension)
            == Some(extension),
        stem.len() == 0 || extension.len() == 0 ==> extension_of(stem + seq!['.'] + extension)
            is None,
{
    let name = stem + seq!['.'] + extension;
    lemma_last_dot_found(stem, extension);
    assert(name.skip(stem.len() as int + 1) =~= extension);
}

/// A name that says what the file is settles it; else its extension does,
/// where that is known; one that is not is named in capitals; and without one
/// there is but a file.
pub proof fn lemma_described(name: Seq<char>)
    ensures
        ({
            let lower = text::lower_text(name);
            let known = names::known_name(lower);
            let ending = extension_of(lower);
            &&& known is Some ==> description(name) == known->0
            &&& known is None && ending is Some ==> {
                let meant = extensions::known_extension(ending->0);
                &&& meant is Some ==> description(name) == meant->0
                &&& meant is None ==> description(name) == text::upper_text(ending->0) + " file"@
            }
            &&& known is None && ending is None ==> description(name) == "File"@
        }),
{
}

} // verus!
