//! The wire protocol: response lines, and the parser for request lines.

use vstd::prelude::*;
use vstd::string::StrSliceExecFns;
use vstd::string::StringExecFns;

use crate::numeric::{
    parse_u64_chars, parse_usize_chars, spec_parse_u64_chars, spec_parse_usize_chars,
};
use crate::text::{
    char_index, find_char_from, lemma_char_index_is, next_token, spec_token, spec_trim,
    starts_with, str_eq, trim, trim_front, trim_start,
};

verus! {

/// Every reply the broker sends, one line each.
#[derive(Clone, Copy, Debug, PartialEq, Eq, Structural)]
pub enum Response {
    Ack,
    Nack,
    Okay,
    ErrWal,
    ErrBusy,
    ErrTimeout,
    ErrTooLarge,
}

/// The exact line each response puts on the wire.
pub open spec fn spec_response_line(r: Response) -> Seq<char> {
    match r {
        Response::Ack => seq!['A', 'C', 'K', '\n'],
        Response::Nack => seq!['N', 'A', 'C', 'K', '\n'],
        Response::Okay => seq!['O', 'K', '\n'],
        Response::ErrWal => seq!['E', 'R', 'R', ' ', 'W', 'A', 'L', '\n'],
        Response::ErrBusy => seq!['E', 'R', 'R', ' ', 'B', 'U', 'S', 'Y', '\n'],
        Response::ErrTimeout => seq![
            'E', 'R', 'R', ' ', 'T', 'I', 'M', 'E', 'O', 'U', 'T', '\n',
        ],
        Response::ErrTooLarge => seq![
            'E', 'R', 'R', ' ', 'T', 'O', 'O', '_', 'L', 'A', 'R', 'G', 'E', '\n',
        ],
    }
}

impl Response {
    /// The bytes to write for this response (ASCII, so the characters are
    /// the bytes).
    pub fn as_bytes(&self) -> (s: &'static str)
        ensures
            s@ == spec_response_line(*self),
    {
        match self {
            Response::Ack => {
                proof {
                    reveal_strlit("ACK\n");
                    assert("ACK\n"@ =~= spec_response_line(Response::Ack));
                }
                "ACK\n"
            },
            Response::Nack => {
                proof {
                    reveal_strlit("NACK\n");
                    assert("NACK\n"@ =~= spec_response_line(Response::Nack));
                }
                "NACK\n"
            },
            Response::Okay => {
                proof {
                    reveal_strlit("OK\n");
                    assert("OK\n"@ =~= spec_response_line(Response::Okay));
                }
                "OK\n"
            },
            Response::ErrWal => {
                proof {
                    reveal_strlit("ERR WAL\n");
                    assert("ERR WAL\n"@ =~= spec_response_line(Response::ErrWal));
                }
                "ERR WAL\n"
            },
            Response::ErrBusy => {
                proof {
                    reveal_strlit("ERR BUSY\n");
                    assert("ERR BUSY\n"@ =~= spec_response_line(Response::ErrBusy));
                }
                "ERR BUSY\n"
            },
            Response::ErrTimeout => {
                proof {
                    reveal_strlit("ERR TIMEOUT\n");
                    assert("ERR TIMEOUT\n"@ =~= spec_response_line(Response::ErrTimeout));
                }
                "ERR TIMEOUT\n"
            },
            Response::ErrTooLarge => {
                proof {
                    reveal_strlit("ERR TOO_LARGE\n");
                    assert("ERR TOO_LARGE\n"@ =~= spec_response_line(Response::ErrTooLarge));
                }
                "ERR TOO_LARGE\n"
            },
        }
    }
}

/// A request line, parsed.
pub enum Command {
    Ping,
    Pub { topic: String, payload: String },
    Fetch { topic: String, offset: u64, limit: usize },
    Unknown(String),
}

/// The parsed command as sequences, for contracts.
pub enum CommandModel {
    Ping,
    Pub { topic: Seq<char>, payload: Seq<char> },
    Fetch { topic: Seq<char>, offset: u64, limit: usize },
    Unknown(Seq<char>),
}

impl View for Command {
    type V = CommandModel;

    open spec fn view(&self) -> CommandModel {
        match self {
            Command::Ping => CommandModel::Ping,
            Command::Pub { topic, payload } => CommandModel::Pub {
                topic: topic@,
                payload: payload@,
            },
            Command::Fetch { topic, offset, limit } => CommandModel::Fetch {
                topic: topic@,
                offset: *offset,
                limit: *limit,
            },
            Command::Unknown(s) => CommandModel::Unknown(s@),
        }
    }
}

/// What each request line means. Surrounding whitespace is stripped only
/// where a command is recognised: `PING` and `FETCH` ignore it, and `PUB` is
/// recognised after leading whitespace. `PUB`'s topic is the run up to the
/// first space, itself trimmed; the payload is the remainder of the line
/// after that space verbatim, internal and trailing whitespace preserved.
/// `FETCH` takes three whitespace-delimited arguments and ignores any extra
/// ones. A `PUB` with an empty topic, a `FETCH` with a missing or unreadable
/// argument, and every other line are unknown.
pub open spec fn spec_parse_command(raw: Seq<char>) -> CommandModel {
    let line = spec_trim(raw);
    let front = trim_front(raw);
    if line == seq!['P', 'I', 'N', 'G'] {
        CommandModel::Ping
    } else if front.len() >= 4 && front.take(4) == seq!['P', 'U', 'B', ' '] {
        let rest = front.skip(4);
        let sp = char_index(rest, ' ');
        let topic = spec_trim(rest.take(sp));
        let payload = if sp < rest.len() {
            rest.skip(sp + 1)
        } else {
            Seq::empty()
        };
        if topic.len() == 0 {
            CommandModel::Unknown(line)
        } else {
            CommandModel::Pub { topic, payload }
        }
    } else if line.len() >= 6 && line.take(6) == seq!['F', 'E', 'T', 'C', 'H', ' '] {
        let rest = line.skip(6);
        let t1 = spec_token(rest);
        let t2 = spec_token(t1.1);
        let t3 = spec_token(t2.1);
        match (spec_parse_u64_chars(t2.0), spec_parse_usize_chars(t3.0)) {
            (Some(offset), Some(limit)) => if t1.0.len() > 0 {
                CommandModel::Fetch { topic: t1.0, offset, limit }
            } else {
                CommandModel::Unknown(line)
            },
            _ => CommandModel::Unknown(line),
        }
    } else {
        CommandModel::Unknown(line)
    }
}

impl Command {
    /// Parses one request line.
    pub fn parse(line: &str) -> (c: Command)
        ensures
            c@ == spec_parse_command(line@),
    {
        let t = trim(line);
        proof {
            reveal_strlit("PING");
            assert("PING"@ =~= seq!['P', 'I', 'N', 'G']);
        }
        if str_eq(t, "PING") {
            return Command::Ping;
        }
        proof {
            reveal_strlit("PUB ");
            assert("PUB "@ =~= seq!['P', 'U', 'B', ' ']);
        }
        let front = trim_start(line);
        if starts_with(front, "PUB ") {
            let fl = front.unicode_len();
            let rest = front.substring_char(4, fl);
            proof {
                assert(rest@ =~= front@.skip(4));
            }
            let rl = rest.unicode_len();
            let sp = find_char_from(rest, 0, ' ');
            proof {
                lemma_char_index_is(rest@, ' ', sp as int);
            }
            let raw_topic = rest.substring_char(0, sp);
            proof {
                assert(raw_topic@ =~= rest@.take(sp as int));
            }
            let topic = trim(raw_topic);
            if topic.unicode_len() == 0 {
                return Command::Unknown(String::from_str(t));
            }
            let payload = if sp < rl {
                let p = rest.substring_char(sp + 1, rl);
                proof {
                    assert(p@ =~= rest@.skip(sp + 1));
                }
                p
            } else {
                proof {
                    reveal_strlit("");
                    assert(""@ =~= Seq::<char>::empty());
                }
                ""
            };
            return Command::Pub {
                topic: String::from_str(topic),
                payload: String::from_str(payload),
            };
        }
        proof {
            reveal_strlit("FETCH ");
            assert("FETCH "@ =~= seq!['F', 'E', 'T', 'C', 'H', ' ']);
        }
        if starts_with(t, "FETCH ") {
            let tl = t.unicode_len();
            let rest = t.substring_char(6, tl);
            proof {
                assert(rest@ =~= t@.skip(6));
                assert(rest@.skip(0) =~= rest@);
            }
            let (a1, b1) = next_token(rest, 0);
            let (a2, b2) = next_token(rest, b1);
            let (a3, b3) = next_token(rest, b2);
            let offset = parse_u64_chars(rest, a2, b2);
            let limit = parse_usize_chars(rest, a3, b3);
            proof {
                assert(spec_token(rest@).0 =~= rest@.subrange(a1 as int, b1 as int));
            }
            match (offset, limit) {
                (Some(offset), Some(limit)) => {
                    if a1 < b1 {
                        let topic = rest.substring_char(a1, b1);
                        proof {
                            assert(topic@ =~= rest@.subrange(a1 as int, b1 as int));
                        }
                        return Command::Fetch {
                            topic: String::from_str(topic),
                            offset,
                            limit,
                        };
                    }
                    return Command::Unknown(String::from_str(t));
                },
                _ => {
                    return Command::Unknown(String::from_str(t));
                },
            }
        }
        Command::Unknown(String::from_str(t))
    }
}

} // verus!
