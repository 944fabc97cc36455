use vstd::prelude::*;
use vstd::string::*;

verus! {

/// Create a new rule file from the file at `path`.
#[derive(Clone, Debug, Default)]
pub struct Create {
    pub name: String,
    pub path: String,
}

/// Delete a rule file.
#[derive(Clone, Debug, Default)]
pub struct Delete {
    pub id: i64,
}

/// Leave the shell.
#[derive(Clone, Debug, Default)]
pub struct Exit {}

/// List the rule files.
#[derive(Clone, Debug, Default)]
pub struct List {}

/// Show one rule file.
#[derive(Clone, Debug, Default)]
pub struct Request {
    pub id: i64,
}

/// Compile a rule file and install it as the active program.
#[derive(Clone, Debug, Default)]
pub struct SetProgram {
    pub id: i64,
}

/// Replace the content of a rule file with the file at `path`.
#[derive(Clone, Debug, Default)]
pub struct Update {
    pub id: i64,
    pub path: String,
}

/// A command of the administration shell.
#[derive(Clone, Debug)]
pub enum Command {
    Exit(Exit),
    Create(Create),
    Request(Request),
    Update(Update),
    Delete(Delete),
    List(List),
    SetProgram(SetProgram),
}

/// The words that the shell accepts, `help` first.
pub open spec fn command_words() -> Seq<Seq<char>> {
    seq![
        "help"@,
        "exit"@,
        "create"@,
        "request"@,
        "update"@,
        "delete"@,
        "list"@,
        "set_program"@,
    ]
}

impl Command {
    /// The word that names this command in the shell.
    pub fn name(&self) -> (r: &'static str)
        ensures
            r@ == match self {
                Command::Exit(_) => command_words()[1],
                Command::Create(_) => command_words()[2],
                Command::Request(_) => command_words()[3],
                Command::Update(_) => command_words()[4],
                Command::Delete(_) => command_words()[5],
                Command::List(_) => command_words()[6],
                Command::SetProgram(_) => command_words()[7],
            },
    {
        match self {
            Command::Exit(_) => "exit",
            Command::Create(_) => "create",
            Command::Request(_) => "request",
            Command::Update(_) => "update",
            Command::Delete(_) => "delete",
            Command::List(_) => "list",
            Command::SetProgram(_) => "set_program",
        }
    }

    /// Every command word, for completion and highlighting.
    pub fn all_commands() -> (r: Vec<String>)
        ensures
            r@.len() == command_words().len(),
            forall|i: int| 0 <= i < r@.len() ==> (#[trigger] r@[i])@ == command_words()[i],
    {
        let mut r: Vec<String> = Vec::new();
        r.push(String::from_str("help"));
        r.push(String::from_str("exit"));
        r.push(String::from_str("create"));
        r.push(String::from_str("request"));
        r.push(String::from_str("update"));
        r.push(String::from_str("delete"));
        r.push(String::from_str("list"));
        r.push(String::from_str("set_program"));
        proof {
            assert forall|i: int| 0 <= i < r@.len() implies (#[trigger] r@[i])@ == command_words()[i] by {
                if i == 0 {} else if i == 1 {} else if i == 2 {} else if i == 3 {} else if i == 4 {} else if i == 5 {} else if i == 6 {} else {}
            }
        }
        r
    }
}

} // verus!
