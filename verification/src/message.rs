//! Structured messages and the argument-list grammar they are read from.
//!
//! The wire-level decoder is an external collaborator: it hands over an
//! address and a flat list of typed arguments.  This module validates that
//! list — leading timestamp, completion flag, zero or more output indices,
//! then an optional payload blob — and produces either a keep-alive marker
//! or a data message whose output indices are all in range.

use vstd::prelude::*;
use crate::NUM_OUTPUTS;

verus! {

/// One argument of a wire message, as handed over by the excluded
/// wire-level decoder.
#[derive(Debug)]
pub enum OscArg {
    Long(i64),
    Bool(bool),
    Int(i32),
    Blob(Vec<u8>),
}

/// A structurally invalid message; the message is skipped, no state changes.
#[derive(Clone, Copy, PartialEq, Eq, Structural, Debug)]
pub enum ProtocolError {
    /// The first argument is missing or is not a 64-bit timestamp.
    MissingTimestamp,
    /// The second argument is missing or is not the completion flag.
    MissingCompletionFlag,
    /// An argument after the output list is neither a payload blob nor absent.
    UnexpectedArgument,
    /// An output index lies outside `[0, NUM_OUTPUTS)`.
    OutputOutOfRange,
}

/// A validated data message: one fragment of a frame.
#[derive(Debug)]
pub struct Message {
    pub layer_id: String,
    pub timestamp: i64,
    pub is_last: bool,
    pub outputs: Vec<i32>,
    pub payload: Vec<u8>,
}

/// A validated message: either a keep-alive marker or a data fragment.
#[derive(Debug)]
pub enum ParsedMessage {
    KeepAlive { layer_id: String, timestamp: i64 },
    Data(Message),
}

/// Mathematical form of a data message.
pub struct MessageModel {
    pub layer: Seq<char>,
    pub timestamp: i64,
    pub is_last: bool,
    pub outputs: Seq<i32>,
    pub payload: Seq<u8>,
}

/// Mathematical form of a parsed message.
pub enum ParsedModel {
    KeepAlive { layer: Seq<char>, timestamp: i64 },
    Data(MessageModel),
}

impl Message {
    /// The mathematical form of this message.
    pub open spec fn model(self) -> MessageModel {
        MessageModel {
            layer: self.layer_id@,
            timestamp: self.timestamp,
            is_last: self.is_last,
            outputs: self.outputs@,
            payload: self.payload@,
        }
    }
}

impl ParsedMessage {
    /// The layer this message belongs to.
    pub open spec fn layer(self) -> Seq<char> {
        match self {
            ParsedMessage::KeepAlive { layer_id, .. } => layer_id@,
            ParsedMessage::Data(m) => m.layer_id@,
        }
    }

    /// The frame timestamp the message carries.
    pub open spec fn timestamp(self) -> i64 {
        match self {
            ParsedMessage::KeepAlive { timestamp, .. } => timestamp,
            ParsedMessage::Data(m) => m.timestamp,
        }
    }

    /// The mathematical form of this parsed message.
    pub open spec fn model(self) -> ParsedModel {
        match self {
            ParsedMessage::KeepAlive { layer_id, timestamp } => ParsedModel::KeepAlive {
                layer: layer_id@,
                timestamp,
            },
            ParsedMessage::Data(m) => ParsedModel::Data(m.model()),
        }
    }
}

/// The reserved address whose messages only keep the stream alive.
pub open spec fn keep_alive_addr() -> Seq<char> {
    "/alive"@
}

/// Every output index lies in `[0, NUM_OUTPUTS)`.
pub open spec fn valid_outputs(outs: Seq<i32>) -> bool {
    forall|i: int| 0 <= i < outs.len() ==> 0 <= #[trigger] outs[i] < NUM_OUTPUTS as i32
}

/// The leading timestamp argument, if present and well-typed.
pub open spec fn timestamp_arg(args: Seq<OscArg>) -> Option<i64> {
    if args.len() >= 1 {
        match args[0] {
            OscArg::Long(t) => Some(t),
            _ => None,
        }
    } else {
        None
    }
}

/// The completion-flag argument, if present and well-typed.
pub open spec fn flag_arg(args: Seq<OscArg>) -> Option<bool> {
    if args.len() >= 2 {
        match args[1] {
            OscArg::Bool(b) => Some(b),
            _ => None,
        }
    } else {
        None
    }
}

/// Grammar of the arguments after the completion flag: in-range output
/// indices up to an optional payload blob; a missing blob is an empty
/// payload; arguments after the blob are ignored.
pub open spec fn parse_tail_spec(args: Seq<OscArg>, outs: Seq<i32>) -> Result<
    (Seq<i32>, Seq<u8>),
    ProtocolError,
>
    decreases args.len(),
{
    if args.len() == 0 {
        Ok((outs, Seq::empty()))
    } else {
        match args[0] {
            OscArg::Int(v) => if 0 <= v && v < NUM_OUTPUTS as i32 {
                parse_tail_spec(args.drop_first(), outs.push(v))
            } else {
                Err(ProtocolError::OutputOutOfRange)
            },
            OscArg::Blob(p) => Ok((outs, p@)),
            _ => Err(ProtocolError::UnexpectedArgument),
        }
    }
}

/// What parsing an address and argument list yields.
pub open spec fn parse_spec(addr: Seq<char>, args: Seq<OscArg>) -> Result<
    ParsedModel,
    ProtocolError,
> {
    match timestamp_arg(args) {
        None => Err(ProtocolError::MissingTimestamp),
        Some(t) => if addr == keep_alive_addr() {
            Ok(ParsedModel::KeepAlive { layer: addr, timestamp: t })
        } else {
            match flag_arg(args) {
                None => Err(ProtocolError::MissingCompletionFlag),
                Some(last) => match parse_tail_spec(args.skip(2), Seq::empty()) {
                    Err(e) => Err(e),
                    Ok(tail) => Ok(
                        ParsedModel::Data(
                            MessageModel {
                                layer: addr,
                                timestamp: t,
                                is_last: last,
                                outputs: tail.0,
                                payload: tail.1,
                            },
                        ),
                    ),
                },
            }
        },
    }
}

/// Copy a byte vector.
fn copy_bytes(src: &Vec<u8>) -> (r: Vec<u8>)
    ensures
        r@ == src@,
{
    let mut r: Vec<u8> = Vec::new();
    let n: usize = src.len();
    let mut i: usize = 0;
    while i < n
        invariant
            n == src@.len(),
            i <= n,
            r@ == src@.take(i as int),
        decreases n - i,
    {
        r.push(src[i]);
        proof {
            assert(r@ =~= src@.take(i as int + 1));
        }
        i += 1;
    }
    proof {
        assert(src@.take(n as int) =~= src@);
    }
    r
}

/// Outputs accepted by the tail grammar stay in range.
proof fn lemma_parse_tail_valid(args: Seq<OscArg>, outs: Seq<i32>)
    requires
        valid_outputs(outs),
        parse_tail_spec(args, outs) is Ok,
    ensures
        valid_outputs(parse_tail_spec(args, outs)->Ok_0.0),
    decreases args.len(),
{
    if args.len() == 0 {
    } else {
        match args[0] {
            OscArg::Int(v) => {
                assert(valid_outputs(outs.push(v)));
                lemma_parse_tail_valid(args.drop_first(), outs.push(v));
            },
            _ => {},
        }
    }
}

/// Validate an address and argument list into a parsed message.
///
/// Succeeds exactly when the list matches the wire grammar; the error
/// identifies the first violation.  A keep-alive address yields a keep-alive
/// marker after only the timestamp is read.
pub fn parse_message(addr: String, args: &Vec<OscArg>) -> (r: Result<ParsedMessage, ProtocolError>)
    ensures
        r matches Ok(m) ==> parse_spec(addr@, args@) == Ok::<ParsedModel, ProtocolError>(m.model()),
        r matches Err(e) ==> parse_spec(addr@, args@) == Err::<ParsedModel, ProtocolError>(e),
        r matches Ok(ParsedMessage::Data(m)) ==> valid_outputs(m.outputs@),
{
    let n: usize = args.len();
    if n == 0 {
        return Err(ProtocolError::MissingTimestamp);
    }
    let timestamp: i64 = match &args[0] {
        OscArg::Long(t) => *t,
        _ => { return Err(ProtocolError::MissingTimestamp) },
    };
    let alive: String = "/alive".to_owned();
    if addr == alive {
        return Ok(ParsedMessage::KeepAlive { layer_id: addr, timestamp });
    }
    if n < 2 {
        return Err(ProtocolError::MissingCompletionFlag);
    }
    let is_last: bool = match &args[1] {
        OscArg::Bool(b) => *b,
        _ => { return Err(ProtocolError::MissingCompletionFlag) },
    };
    let mut outputs: Vec<i32> = Vec::new();
    let mut payload: Vec<u8> = Vec::new();
    let mut i: usize = 2;
    loop
        invariant
            2 <= i <= n,
            n == args@.len(),
            timestamp_arg(args@) == Some::<i64>(timestamp),
            flag_arg(args@) == Some::<bool>(is_last),
            addr@ != keep_alive_addr(),
            valid_outputs(outputs@),
            parse_tail_spec(args@.skip(2), Seq::empty()) == parse_tail_spec(
                args@.skip(i as int),
                outputs@,
            ),
            payload@.len() == 0,
        ensures
            parse_tail_spec(args@.skip(2), Seq::empty()) == Ok::<(Seq<i32>, Seq<u8>), ProtocolError>(
                (outputs@, Seq::<u8>::empty()),
            ),
            valid_outputs(outputs@),
            payload@.len() == 0,
        decreases n - i,
    {
        if i == n {
            proof {
                assert(args@.skip(i as int) =~= Seq::<OscArg>::empty());
            }
            break;
        }
        proof {
            assert(args@.skip(i as int)[0] == args@[i as int]);
            assert(args@.skip(i as int).drop_first() =~= args@.skip(i as int + 1));
        }
        match &args[i] {
            OscArg::Int(v) => {
                if *v < 0 || *v >= NUM_OUTPUTS as i32 {
                    return Err(ProtocolError::OutputOutOfRange);
                }
                outputs.push(*v);
                i += 1;
            },
            OscArg::Blob(p) => {
                payload = copy_bytes(p);
                proof {
                    assert(parse_tail_spec(args@.skip(i as int), outputs@) == Ok::<
                        (Seq<i32>, Seq<u8>),
                        ProtocolError,
                    >((outputs@, payload@)));
                }
                return Ok(
                    ParsedMessage::Data(
                        Message { layer_id: addr, timestamp, is_last, outputs, payload },
                    ),
                );
            },
            _ => { return Err(ProtocolError::UnexpectedArgument) },
        }
    }
    proof {
        lemma_parse_tail_valid(args@.skip(2), Seq::empty());
        assert(payload@ =~= Seq::<u8>::empty());
    }
    Ok(ParsedMessage::Data(Message { layer_id: addr, timestamp, is_last, outputs, payload }))
}

} // verus!
