//! The early, topic-less command form: `PING` and `ECHO <text>`. Kept for
//! callers that still speak it; the broker itself dispatches on the richer
//! form in `protocol`.

use vstd::prelude::*;
use vstd::string::StrSliceExecFns;
use vstd::string::StringExecFns;

use crate::text::{spec_trim, starts_with, str_eq, trim};

verus! {

/// A topic-less request line, parsed.
pub enum Command {
    Ping,
    Echo(String),
    Unknown(String),
}

/// The parsed command as sequences, for contracts.
pub enum CommandModel {
    Ping,
    Echo(Seq<char>),
    Unknown(Seq<char>),
}

impl View for Command {
    type V = CommandModel;

    open spec fn view(&self) -> CommandModel {
        match self {
            Command::Ping => CommandModel::Ping,
            Command::Echo(s) => CommandModel::Echo(s@),
            Command::Unknown(s) => CommandModel::Unknown(s@),
        }
    }
}

/// What a topic-less line means: trimmed, it is `PING`, `ECHO ` followed by
/// the text taken verbatim, or unknown.
pub open spec fn spec_parse_consumer_command(raw: Seq<char>) -> CommandModel {
    let line = spec_trim(raw);
    if line == seq!['P', 'I', 'N', 'G'] {
        CommandModel::Ping
    } else if line.len() >= 5 && line.take(5) == seq!['E', 'C', 'H', 'O', ' '] {
        CommandModel::Echo(line.skip(5))
    } else {
        CommandModel::Unknown(line)
    }
}

impl Command {
    /// Parses one topic-less request line.
    pub fn parse(cmd: &str) -> (c: Command)
        ensures
            c@ == spec_parse_consumer_command(cmd@),
    {
        let t = trim(cmd);
        proof {
            reveal_strlit("PING");
            assert("PING"@ =~= seq!['P', 'I', 'N', 'G']);
        }
        if str_eq(t, "PING") {
            return Command::Ping;
        }
        proof {
            reveal_strlit("ECHO ");
            assert("ECHO "@ =~= seq!['E', 'C', 'H', 'O', ' ']);
        }
        if starts_with(t, "ECHO ") {
            let tl = t.unicode_len();
            let rest = t.substring_char(5, tl);
            proof {
                assert(rest@ =~= t@.skip(5));
            }
            return Command::Echo(String::from_str(rest));
        }
        Command::Unknown(String::from_str(t))
    }
}

} // verus!
