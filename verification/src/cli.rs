//! The command surface: the three actions, the parsed command line, and
//! how an invocation settles which journal file to use.
use vstd::prelude::*;

use crate::codec::push_str_chars;
use crate::ext;

verus! {

/// One action of the command line.
#[derive(Debug)]
pub enum Action {
    /// Append a task with the given description to the journal.
    Add { task: String },
    /// Remove the task at the given one-based position from the journal.
    Done { position: usize },
    /// Print every task in the journal.
    List,
}

/// A parsed command line: the action to run and an optional override for
/// the journal file's path.
#[derive(Debug)]
pub struct CommandLineArgs {
    pub action: Action,
    pub journal_file: Option<String>,
}

/// The journal path under a home directory: the file name appended after
/// exactly one separator, as joining path components does — a home that
/// already ends in `/` gains no second one, and an empty home gives the
/// bare, relative file name.
pub open spec fn default_journal_path(home: Seq<char>) -> Seq<char> {
    if home.len() == 0 {
        ".rusty-journal.json"@
    } else if home.last() == '/' {
        home + ".rusty-journal.json"@
    } else {
        home + "/.rusty-journal.json"@
    }
}

/// The default journal file under the given home directory:
/// `<home>/.rusty-journal.json`; nothing when no home directory is known.
pub fn find_default_journal_file(home: Option<String>) -> (r: Option<String>)
    ensures
        match home {
            Some(h) => r matches Some(p) && p@ == default_journal_path(h@),
            None => r is None,
        },
{
    match home {
        Some(h) => {
            let mut cs = ext::chars_of_str(h.as_str());
            if cs.len() == 0 || cs[cs.len() - 1] == '/' {
                push_str_chars(&mut cs, ".rusty-journal.json");
            } else {
                push_str_chars(&mut cs, "/.rusty-journal.json");
            }
            Some(ext::string_from_chars(&cs))
        },
        None => None,
    }
}

/// The journal path an invocation uses: the explicit override when one
/// was given, else the default under the home directory, else nothing —
/// and that last case is a fatal configuration error for the caller.
pub fn resolve_journal_file(journal_file: Option<String>, home: Option<String>) -> (r: Option<
    String,
>)
    ensures
        match journal_file {
            Some(p) => r == Some(p),
            None => match home {
                Some(h) => r matches Some(p) && p@ == default_journal_path(h@),
                None => r is None,
            },
        },
{
    match journal_file {
        Some(p) => Some(p),
        None => find_default_journal_file(home),
    }
}

} // verus!
