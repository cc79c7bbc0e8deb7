use vstd::prelude::*;

verus! {

/// The name of the command that adds a word to the dictionary.
pub const ADD_TO_DICT: &'static str = "add-to-dict";

/// A command that an editor can run: what it shows of it, its name, and what
/// it hands to it.
#[derive(PartialEq, Eq, Debug)]
pub struct Command {
    pub title: String,
    pub command: String,
    pub arguments: Vec<String>,
}

/// The command that adds a word to the dictionary of the workspace.
pub struct AddToDict;

impl AddToDict {
    /// The command that adds `word`.
    pub fn command(word: String) -> (command: Command)
        ensures
            command.title@ == "Add a word to the workspace dictionary"@,
            command.command@ == ADD_TO_DICT@,
            command.arguments@.len() == 1,
            command.arguments@[0] == word,
    {
        let mut arguments: Vec<String> = Vec::new();
        arguments.push(word);
        Command {
            title: "Add a word to the workspace dictionary".to_owned(),
            command: ADD_TO_DICT.to_owned(),
            arguments,
        }
    }
}

} // verus!
