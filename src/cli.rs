use vstd::prelude::*;
use vstd::string::StringExecFns;

verus! {

/// A command given on the command line.
#[derive(Debug)]
pub enum Command {
    /// No command: serve the HTTP API.
    Serve,
    Help,
    Add { name: String, phone: String },
    Del { ids: Vec<String> },
    Edit { id: String, name: String, phone: String },
    Show { filter: Option<String> },
}

/// A command line that names a command with the wrong number of arguments, or no
/// known command.
#[derive(Debug)]
pub enum CommandError {
    AddUsage,
    DelUsage,
    EditUsage,
    ShowUsage,
    Unknown(String),
}

pub open spec fn names_command(args: Seq<String>, c: Seq<char>) -> bool {
    args.len() >= 2 && args[1]@ == c
}

/// Reads `args` as the program's arguments, the program name first.
pub fn parse_command(args: &Vec<String>) -> (r: Result<Command, CommandError>)
    ensures
        match r {
            Ok(Command::Serve) => args@.len() < 2,
            Ok(Command::Help) => names_command(args@, "help"@),
            Ok(Command::Add { name, phone }) => names_command(args@, "add"@) && args@.len() == 4 && name@
                == args@[2]@ && phone@ == args@[3]@,
            Ok(Command::Del { ids }) => names_command(args@, "del"@) && args@.len() >= 3 && ids@.len()
                == args@.len() - 2 && forall|i: int| 0 <= i < ids@.len() ==> #[trigger] ids@[i]@ == args@[i + 2]@,
            Ok(Command::Edit { id, name, phone }) => names_command(args@, "edit"@) && args@.len() == 5 && id@
                == args@[2]@ && name@ == args@[3]@ && phone@ == args@[4]@,
            Ok(Command::Show { filter }) => names_command(args@, "show"@) && args@.len() <= 3 && match filter {
                Some(f) => args@.len() == 3 && f@ == args@[2]@,
                None => args@.len() == 2,
            },
            Err(CommandError::AddUsage) => names_command(args@, "add"@) && args@.len() != 4,
            Err(CommandError::DelUsage) => names_command(args@, "del"@) && args@.len() < 3,
            Err(CommandError::EditUsage) => names_command(args@, "edit"@) && args@.len() != 5,
            Err(CommandError::ShowUsage) => names_command(args@, "show"@) && args@.len() > 3,
            Err(CommandError::Unknown(c)) => args@.len() >= 2 && c@ == args@[1]@ && c@ != "add"@ && c@
                != "del"@ && c@ != "edit"@ && c@ != "show"@ && c@ != "help"@,
        },
{
    if args.len() < 2 {
        return Ok(Command::Serve);
    }
    let n = args.len();
    let c = &args[1];
    if *c == String::from_str("add") {
        if n != 4 {
            Err(CommandError::AddUsage)
        } else {
            Ok(Command::Add { name: args[2].clone(), phone: args[3].clone() })
        }
    } else if *c == String::from_str("del") {
        if n < 3 {
            Err(CommandError::DelUsage)
        } else {
            let mut ids: Vec<String> = Vec::new();
            let mut i: usize = 2;
            while i < n
                invariant
                    n == args.len(),
                    2 <= i <= n,
                    ids@.len() == i - 2,
                    forall|k: int| 0 <= k < ids@.len() ==> #[trigger] ids@[k]@ == args@[k + 2]@,
                decreases n - i,
            {
                ids.push(args[i].clone());
                i = i + 1;
            }
            Ok(Command::Del { ids })
        }
    } else if *c == String::from_str("edit") {
        if n != 5 {
            Err(CommandError::EditUsage)
        } else {
            Ok(Command::Edit { id: args[2].clone(), name: args[3].clone(), phone: args[4].clone() })
        }
    } else if *c == String::from_str("show") {
        if n > 3 {
            Err(CommandError::ShowUsage)
        } else if n == 3 {
            Ok(Command::Show { filter: Some(args[2].clone()) })
        } else {
            Ok(Command::Show { filter: None })
        }
    } else if *c == String::from_str("help") {
        Ok(Command::Help)
    } else {
        Err(CommandError::Unknown(c.clone()))
    }
}

} // verus!
