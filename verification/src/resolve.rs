//! From a file's absolute path to the name of its archive entry.

use vstd::prelude::*;

verus! {

/// The character that roots an absolute path.
pub const SEPARATOR: char = '/';

/// What is known of an optional text: its characters.
pub open spec fn text_of(text: Option<String>) -> Option<Seq<char>> {
    match text {
        Some(s) => Some(s@),
        None => None,
    }
}

/// The entry name that belongs to an absolute path: the path without the
/// separator it starts with. A path that could not be made absolute, or that
/// does not start with the separator, has none.
pub open spec fn entry_name(absolute: Option<Seq<char>>) -> Option<Seq<char>> {
    match absolute {
        Some(path) => if path.len() > 0 && path[0] == SEPARATOR {
            Some(path.subrange(1, path.len() as int))
        } else {
            None
        },
        None => None,
    }
}

/// Turns the canonical absolute path of a file, where one was found, into the
/// name under which the file is archived.
pub fn get_absolute_path_string(canonical: &Option<String>) -> (name: Option<String>)
    ensures
        text_of(name) == entry_name(text_of(*canonical)),
{
    match canonical {
        Some(path) => {
            let text = path.as_str();
            if text.is_empty() {
                None
            } else if text.get_char(0) == SEPARATOR {
                let length = text.unicode_len();
                Some(String::from_str(text.substring_char(1, length)))
            } else {
                None
            }
        },
        None => None,
    }
}

/// An entry name is the path without its first character, the separator: the
/// separator and the name make up the path again.
pub proof fn lemma_entry_name_strips_separator(path: Seq<char>)
    ensures
        match entry_name(Some(path)) {
            Some(name) => path == seq![SEPARATOR] + name,
            None => path.len() == 0 || path[0] != SEPARATOR,
        },
{
    if path.len() > 0 && path[0] == SEPARATOR {
        assert(path =~= seq![SEPARATOR] + path.subrange(1, path.len() as int));
    }
}

} // verus!
