//! The request protocol: the commands a client sends, the responses a
//! server returns, and how a command line becomes a command.
use crate::error::{KvsError, error_text};
use crate::text::same_text;
use vstd::prelude::*;

verus! {

/// A request to the store. `Put` is the request that binds a key (`set` on
/// the command line, `Set` on the wire).
#[derive(Debug)]
pub enum Command {
    Get(String),
    Put(String, String),
    Remove(String),
}

/// The answer to a request: `Success` carries the value of a `Get` (absent
/// for a miss and for the other commands), `Error` a readable message.
#[derive(Debug)]
pub enum Response {
    Success(Option<String>),
    Error(String),
}

/// A command line read as a command, or the reason it is not one.
#[derive(Debug)]
pub struct CommandResult(pub Result<Command, KvsError>);

/// What the verb, key and optional value of a command line make: `get KEY`,
/// `set KEY VALUE` and `rm KEY`; any other verb or arity is unexpected.
pub open spec fn command_of(command_type: String, key: String, value: Option<String>) -> Result<Command, KvsError> {
    if command_type@ == "get"@ && value is None {
        Ok(Command::Get(key))
    } else if command_type@ == "set"@ && value is Some {
        Ok(Command::Put(key, value->Some_0))
    } else if command_type@ == "rm"@ && value is None {
        Ok(Command::Remove(key))
    } else {
        Err(KvsError::UnexpectedCommand { command: command_type })
    }
}

/// Reads a command line as a command.
pub fn parse_command(command_type: String, key: String, value: Option<String>) -> (r: Result<Command, KvsError>)
    ensures
        r == command_of(command_type, key, value),
{
    proof {
        reveal_strlit("get");
        reveal_strlit("set");
        reveal_strlit("rm");
        assert("get"@[0] == 'g' && "set"@[0] == 's' && "rm"@.len() == 2 && "get"@.len() == 3);
    }
    if same_text(command_type.as_str(), "get") {
        if value.is_none() {
            return Ok(Command::Get(key));
        }
    } else if same_text(command_type.as_str(), "set") {
        if let Some(v) = value {
            return Ok(Command::Put(key, v));
        }
    } else if same_text(command_type.as_str(), "rm") {
        if value.is_none() {
            return Ok(Command::Remove(key));
        }
    }
    Err(KvsError::UnexpectedCommand { command: command_type })
}

impl From<(String, String, Option<String>)> for CommandResult {
    fn from(line: (String, String, Option<String>)) -> (r: CommandResult) {
        let (command_type, key, value) = line;
        CommandResult(parse_command(command_type, key, value))
    }
}

impl vstd::std_specs::convert::FromSpecImpl<(String, String, Option<String>)> for CommandResult {
    open spec fn obeys_from_spec() -> bool {
        true
    }

    open spec fn from_spec(line: (String, String, Option<String>)) -> CommandResult {
        CommandResult(command_of(line.0, line.1, line.2))
    }
}

impl Response {
    /// What a client makes of a response: the value of a `Success`, or an
    /// error carrying the message of an `Error`.
    pub fn into_result(self) -> (r: Result<Option<String>, KvsError>)
        ensures
            match self {
                Response::Success(v) => r == Ok::<Option<String>, KvsError>(v),
                Response::Error(m) => r == Err::<Option<String>, KvsError>(KvsError::Other { message: m }),
            },
    {
        match self {
            Response::Success(v) => Ok(v),
            Response::Error(m) => Err(KvsError::Other { message: m }),
        }
    }
}

/// The response a server sends for `command`, given what the engine did
/// with it. A failure to read or write a file or the network (`Io`) is
/// handed back, and the connection is dropped; any other failure becomes an
/// `Error` response that names it, and the connection stays open.
pub fn respond(command: &Command, outcome: Result<Option<String>, KvsError>) -> (r: Result<Response, KvsError>)
    ensures
        match outcome {
            Ok(v) => match command {
                Command::Get(_) => r == Ok::<Response, KvsError>(Response::Success(v)),
                _ => r == Ok::<Response, KvsError>(Response::Success(None)),
            },
            Err(e) => if e is Io {
                r == Err::<Response, KvsError>(e)
            } else {
                r matches Ok(Response::Error(m)) && m@ == error_text(e)
            },
        },
{
    match outcome {
        Ok(v) => match command {
            Command::Get(_) => Ok(Response::Success(v)),
            _ => Ok(Response::Success(None)),
        },
        Err(e) => {
            if let KvsError::Io { .. } = e {
                Err(e)
            } else {
                Ok(Response::Error(e.message()))
            }
        },
    }
}

} // verus!
