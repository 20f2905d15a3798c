//! What a connection does with each line it reads: the size gate, command
//! dispatch, how produce outcomes become replies, the rendering of fetched
//! records, and which replies are counted.

use vstd::prelude::*;
use vstd::string::StringExecFns;
use vstd::utf8::encode_utf8;

use crate::numeric::{dec_chars, u64_to_string};
use crate::protocol::{spec_parse_command, Command, CommandModel, Response};
use crate::stats::Stats;
use crate::text::spec_trim;
use crate::wal::WalRecord;

verus! {

/// Longest line a client may send, in bytes.
pub const MAX_MSG_BYTES: usize = 64 * 1024;

/// What a connection does next with a line: reply at once (and stay open or
/// close), submit a produce, or submit a fetch.
pub enum Step {
    Reply { resp: Response, keep_open: bool },
    StartProduce { topic: String, payload: String },
    StartFetch { topic: String, from: u64, limit: usize },
}

/// The step as sequences, for contracts.
pub enum StepModel {
    Reply { resp: Response, keep_open: bool },
    StartProduce { topic: Seq<char>, payload: Seq<char> },
    StartFetch { topic: Seq<char>, from: u64, limit: usize },
}

impl View for Step {
    type V = StepModel;

    open spec fn view(&self) -> StepModel {
        match self {
            Step::Reply { resp, keep_open } => StepModel::Reply {
                resp: *resp,
                keep_open: *keep_open,
            },
            Step::StartProduce { topic, payload } => StepModel::StartProduce {
                topic: topic@,
                payload: payload@,
            },
            Step::StartFetch { topic, from, limit } => StepModel::StartFetch {
                topic: topic@,
                from: *from,
                limit: *limit,
            },
        }
    }
}

/// The connection's dispatch rule. A line over the size gate is refused but
/// costs nothing further; a ping is answered at once; a produce and a fetch
/// are handed on with exactly the parsed arguments; anything else is
/// rejected and the connection kept.
pub open spec fn spec_plan_line(line: Seq<char>) -> StepModel {
    if encode_utf8(line).len() as usize > MAX_MSG_BYTES {
        StepModel::Reply { resp: Response::ErrTooLarge, keep_open: true }
    } else {
        match spec_parse_command(line) {
            CommandModel::Ping => StepModel::Reply { resp: Response::Okay, keep_open: true },
            CommandModel::Pub { topic, payload } => StepModel::StartProduce { topic, payload },
            CommandModel::Fetch { topic, offset, limit } => StepModel::StartFetch {
                topic,
                from: offset,
                limit,
            },
            CommandModel::Unknown(_) => StepModel::Reply {
                resp: Response::Nack,
                keep_open: true,
            },
        }
    }
}

/// Decides what to do with one line.
pub fn plan_line(line: &str) -> (s: Step)
    ensures
        s@ == spec_plan_line(line@),
{
    if line.len() > MAX_MSG_BYTES {
        return Step::Reply { resp: Response::ErrTooLarge, keep_open: true };
    }
    match Command::parse(line) {
        Command::Ping => Step::Reply { resp: Response::Okay, keep_open: true },
        Command::Pub { topic, payload } => Step::StartProduce { topic, payload },
        Command::Fetch { topic, offset, limit } => Step::StartFetch {
            topic,
            from: offset,
            limit,
        },
        Command::Unknown(_) => Step::Reply { resp: Response::Nack, keep_open: true },
    }
}

/// A ping line within the size gate is answered from the parser alone: its
/// step is a pure reply that keeps the connection open, with nothing
/// submitted to the queue and nothing asked of the log.
pub proof fn lemma_ping_is_pure(line: Seq<char>)
    requires
        spec_trim(line) == seq!['P', 'I', 'N', 'G'],
        encode_utf8(line).len() as usize <= MAX_MSG_BYTES,
    ensures
        spec_plan_line(line) == (StepModel::Reply { resp: Response::Okay, keep_open: true }),
{
}

/// How a submitted produce ended.
#[derive(Clone, Copy, Debug, PartialEq, Eq, Structural)]
pub enum ProduceOutcome {
    /// The commit signal fired: the record is on disk.
    Committed,
    /// The commit signal was dropped without firing: the append failed.
    CommitDropped,
    /// The queue was full.
    QueueFull,
    /// The queue was closed.
    QueueClosed,
}

/// The reply owed for each produce outcome, and whether the connection
/// stays open: an acknowledgement exactly when the record is durable, a
/// backpressure reject that keeps the connection, a durability error that
/// closes it, and a silent close when the worker is gone.
pub fn produce_step(outcome: ProduceOutcome) -> (r: (Option<Response>, bool))
    ensures
        r == match outcome {
            ProduceOutcome::Committed => (Some(Response::Ack), true),
            ProduceOutcome::CommitDropped => (Some(Response::ErrWal), false),
            ProduceOutcome::QueueFull => (Some(Response::Nack), true),
            ProduceOutcome::QueueClosed => (None::<Response>, false),
        },
{
    match outcome {
        ProduceOutcome::Committed => (Some(Response::Ack), true),
        ProduceOutcome::CommitDropped => (Some(Response::ErrWal), false),
        ProduceOutcome::QueueFull => (Some(Response::Nack), true),
        ProduceOutcome::QueueClosed => (None, false),
    }
}

/// How a submitted fetch ended.
#[derive(Clone, Copy, Debug, PartialEq, Eq, Structural)]
pub enum FetchOutcome {
    /// The worker's reply arrived and every record line was handed to the
    /// writer.
    Delivered,
    /// The request could not be submitted: the worker is gone.
    SendFailed,
    /// The reply signal was dropped without a value.
    ReplyDropped,
}

/// The reply that closes a fetch, and whether the connection stays open:
/// the trailing acknowledgement after the delivered records, or a log error
/// that closes the connection when the request could not be submitted or
/// its reply never came.
pub fn fetch_step(outcome: FetchOutcome) -> (r: (Option<Response>, bool))
    ensures
        r == match outcome {
            FetchOutcome::Delivered => (Some(Response::Okay), true),
            FetchOutcome::SendFailed => (Some(Response::ErrWal), false),
            FetchOutcome::ReplyDropped => (Some(Response::ErrWal), false),
        },
{
    match outcome {
        FetchOutcome::Delivered => (Some(Response::Okay), true),
        FetchOutcome::SendFailed => (Some(Response::ErrWal), false),
        FetchOutcome::ReplyDropped => (Some(Response::ErrWal), false),
    }
}

/// The line a fetch reply writes for one record: offset, id and the decoded
/// payload, tab-separated, newline-terminated.
pub open spec fn spec_fetch_line(offset: u64, id: u64, payload: Seq<char>) -> Seq<char> {
    dec_chars(offset as nat) + seq!['\t'] + dec_chars(id as nat) + seq!['\t'] + payload + seq![
        '\n',
    ]
}

/// Renders one fetched record for the wire.
pub fn fetch_line(rec: &WalRecord) -> (s: String)
    ensures
        s@ == spec_fetch_line(rec.offset, rec.id, rec.payload@),
{
    proof {
        reveal_strlit("\t");
        reveal_strlit("\n");
        assert("\t"@ =~= seq!['\t']);
        assert("\n"@ =~= seq!['\n']);
    }
    let mut s = u64_to_string(rec.offset);
    s.append("\t");
    let ids = u64_to_string(rec.id);
    s.append(ids.as_str());
    s.append("\t");
    s.append(rec.payload.as_str());
    s.append("\n");
    proof {
        assert(s@ =~= spec_fetch_line(rec.offset, rec.id, rec.payload@));
    }
    s
}

/// Counts a reply: acknowledgements, backpressure rejects and durability
/// errors each have their counter; other replies are not counted.
pub fn record(stats: &mut Stats, r: &Response)
    requires
        old(stats).ack < u64::MAX,
        old(stats).nack < u64::MAX,
        old(stats).err_wal < u64::MAX,
    ensures
        final(stats).ack == old(stats).ack + (if *r == Response::Ack {
            1int
        } else {
            0
        }),
        final(stats).nack == old(stats).nack + (if *r == Response::Nack {
            1int
        } else {
            0
        }),
        final(stats).err_wal == old(stats).err_wal + (if *r == Response::ErrWal {
            1int
        } else {
            0
        }),
        final(stats).connections == old(stats).connections,
        final(stats).next_id == old(stats).next_id,
{
    match r {
        Response::Ack => stats.inc_ack(),
        Response::Nack => stats.inc_nack(),
        Response::ErrWal => stats.inc_err_wal(),
        _ => {},
    }
}

} // verus!
