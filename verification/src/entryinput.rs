//! Entry input. Entry text reaches the diary from outside: an external
//! editor session or standard input. The session itself — the temporary
//! file, the child process, the read — happens outside the library; the
//! decisions stand here: what seeds a session, what a session's outcome
//! contributes as entry text, and whether that text holds any content.

use vstd::prelude::*;
use vstd::string::StringExecFns;

use crate::strutil::chars_of;
use crate::strutil::exec_is_space;
use crate::strutil::is_space;

verus! {

/// What can go wrong while acquiring entry text.
#[derive(Debug)]
pub enum EntryInputError {
    ReadFailed(String),
}

/// What an external editor session starts from: the given text when there
/// is any; an empty text seeds nothing.
pub fn editor_seed<'a>(text: &'a str) -> (r: Option<&'a str>)
    ensures
        text@.len() > 0 ==> (r matches Some(s) && s@ == text@),
        text@.len() == 0 ==> r is None,
{
    if !text.is_empty() {
        Some(text)
    } else {
        None
    }
}

/// Accepts what an editor session (or a read from standard input) handed
/// back: the text, unchanged, becomes the entry input; a session whose
/// outcome could not be read yields an error.
pub fn read_from_editor(outcome: Option<String>) -> (r: Result<String, EntryInputError>)
    ensures
        outcome matches Some(s) ==> (r matches Ok(v) && v@ == s@),
        outcome is None ==> r is Err,
{
    match outcome {
        Some(s) => Ok(s),
        None => Err(
            EntryInputError::ReadFailed(String::from_str("could not read the entry text")),
        ),
    }
}

/// Every character of `s` is whitespace.
pub open spec fn all_space(s: Seq<char>) -> bool {
    forall|i: int| 0 <= i < s.len() ==> is_space(#[trigger] s[i])
}

/// Whether acquired text holds anything beyond whitespace: a blank entry
/// is not added to the diary.
pub fn entry_has_content(text: &str) -> (r: bool)
    ensures
        r == !all_space(text@),
{
    let v = chars_of(text);
    let mut i: usize = 0;
    while i < v.len()
        invariant
            i <= v.len(),
            v@ == text@,
            forall|k: int| 0 <= k < i ==> is_space(#[trigger] v@[k]),
        decreases v.len() - i,
    {
        if !exec_is_space(v[i]) {
            return true;
        }
        i = i + 1;
    }
    false
}

} // verus!
