//! What a command line asks for, and which paths each command needs.
use vstd::prelude::*;

verus! {

/// A command line: the command word and the optional input and output paths.
pub struct Cli {
    pub command: String,
    pub input: Option<String>,
    pub output: Option<String>,
}

/// The work that a command line selects.
pub enum Action {
    /// Decode the vector file at the path and report.
    Read { input: String },
    /// Decode the bundled persisted file and report.
    Load,
    /// Decode the vector file, reproject it, persist it.
    Transform { input: String, output: String },
    /// Decode the vector file and persist it as it is.
    Save { input: String, output: String },
    /// Open the persisted file at the path in an interactive session.
    View { input: String },
    /// A command word that names no command.
    Unrecognized,
}

/// A command that lacks a path it needs.
#[derive(Clone, Copy, Debug, PartialEq, Eq, Structural)]
pub enum UsageError {
    MissingInput,
    MissingOutput,
}

pub open spec fn opt_view(o: Option<String>) -> Option<Seq<char>> {
    match o {
        Some(s) => Some(s@),
        None => None,
    }
}

fn is_word(s: &String, word: &str) -> (r: bool)
    ensures
        r == (s@ == word@),
{
    let w = word.to_owned();
    *s == w
}

impl Cli {
    /// The action this command line selects, or the path it lacks: `read`,
    /// `transform`, `save` and `viewer` need an input path, `transform` and
    /// `save` an output path. `save` looks for its output path before its
    /// input path; `transform` the other way round.
    pub fn action(&self) -> (r: Result<Action, UsageError>)
        ensures
            self.command@ == "read"@ ==> match self.input {
                Some(i) => r matches Ok(Action::Read { input }) && input@ == i@,
                None => r == Err::<Action, UsageError>(UsageError::MissingInput),
            },
            self.command@ == "load"@ ==> r matches Ok(Action::Load),
            self.command@ == "transform"@ ==> match (self.input, self.output) {
                (None, _) => r == Err::<Action, UsageError>(UsageError::MissingInput),
                (Some(_), None) => r == Err::<Action, UsageError>(UsageError::MissingOutput),
                (Some(i), Some(o)) => r matches Ok(Action::Transform { input, output })
                    && input@ == i@ && output@ == o@,
            },
            self.command@ == "save"@ ==> match (self.input, self.output) {
                (_, None) => r == Err::<Action, UsageError>(UsageError::MissingOutput),
                (None, Some(_)) => r == Err::<Action, UsageError>(UsageError::MissingInput),
                (Some(i), Some(o)) => r matches Ok(Action::Save { input, output }) && input@
                    == i@ && output@ == o@,
            },
            self.command@ == "viewer"@ ==> match self.input {
                Some(i) => r matches Ok(Action::View { input }) && input@ == i@,
                None => r == Err::<Action, UsageError>(UsageError::MissingInput),
            },
            self.command@ != "read"@ && self.command@ != "load"@ && self.command@ != "transform"@
                && self.command@ != "save"@ && self.command@ != "viewer"@ ==> r matches Ok(
                Action::Unrecognized,
            ),
    {
        proof {
            reveal_strlit("read");
            reveal_strlit("load");
            reveal_strlit("transform");
            reveal_strlit("save");
            reveal_strlit("viewer");
            assert("read"@[0] == 'r' && "load"@[0] == 'l' && "transform"@[0] == 't');
            assert("save"@[0] == 's' && "viewer"@[0] == 'v');
        }
        if is_word(&self.command, "read") {
            match &self.input {
                Some(i) => Ok(Action::Read { input: i.clone() }),
                None => Err(UsageError::MissingInput),
            }
        } else if is_word(&self.command, "load") {
            Ok(Action::Load)
        } else if is_word(&self.command, "transform") {
            match (&self.input, &self.output) {
                (None, _) => Err(UsageError::MissingInput),
                (Some(_), None) => Err(UsageError::MissingOutput),
                (Some(i), Some(o)) => Ok(Action::Transform { input: i.clone(), output: o.clone() }),
            }
        } else if is_word(&self.command, "save") {
            match (&self.input, &self.output) {
                (_, None) => Err(UsageError::MissingOutput),
                (None, Some(_)) => Err(UsageError::MissingInput),
                (Some(i), Some(o)) => Ok(Action::Save { input: i.clone(), output: o.clone() }),
            }
        } else if is_word(&self.command, "viewer") {
            match &self.input {
                Some(i) => Ok(Action::View { input: i.clone() }),
                None => Err(UsageError::MissingInput),
            }
        } else {
            Ok(Action::Unrecognized)
        }
    }
}

} // verus!
