//! One exchange with the module, told as what happened on the transport.
//!
//! The driver cannot know what the transport will do. What it does with each
//! byte that the transport accepts or delivers is fixed, though: the driver's
//! functions say what they return as a function of the events that they met.

use vstd::prelude::*;
use crate::errors::Error;
use crate::scanner::{quiet, scan_result, CAPACITY};
use crate::wire::{command_line, echo, echoed, lemma_echo_of_command_line, value_prefix};

verus! {

/// What the driver means to do with one byte of a command exchange.
pub enum Step {
    /// Write this byte.
    Send(u8),
    /// Read a byte and find it to be this one.
    Expect(u8),
}

/// What became of one call to the transport.
pub enum Event {
    /// This byte was written.
    Sent(u8),
    /// The transport failed to write this byte.
    SendFailed(u8),
    /// This byte was read.
    Received(u8),
    /// The transport failed to read a byte.
    ReceiveFailed,
}

impl Event {
    /// The byte that the event carries, `0` where it carries none.
    pub open spec fn byte(self) -> u8 {
        match self {
            Event::Sent(b) => b,
            Event::SendFailed(b) => b,
            Event::Received(b) => b,
            Event::ReceiveFailed => 0,
        }
    }
}

/// The steps that write `bytes`.
pub open spec fn sends(bytes: Seq<u8>) -> Seq<Step> {
    Seq::new(bytes.len(), |i: int| Step::Send(bytes[i]))
}

/// The steps that read `bytes` back.
pub open spec fn expects(bytes: Seq<u8>) -> Seq<Step> {
    Seq::new(bytes.len(), |i: int| Step::Expect(bytes[i]))
}

/// The events of a transport that delivers `bytes`.
pub open spec fn receives(bytes: Seq<u8>) -> Seq<Event> {
    Seq::new(bytes.len(), |i: int| Event::Received(bytes[i]))
}

/// The bytes that the events of `seg` carry.
pub open spec fn carried(seg: Seq<Event>) -> Seq<u8> {
    Seq::new(seg.len(), |i: int| seg[i].byte())
}

/// The steps of a plain command with this body: its line is written, and its
/// echo is read back.
pub open spec fn command_script(body: Seq<u8>) -> Seq<Step> {
    sends(command_line(body, false)) + expects(echo(body, false))
}

/// The steps of a query with this body: its line is written, and its echo and
/// the announcement of the value are read back.
pub open spec fn query_script(body: Seq<u8>) -> Seq<Step> {
    sends(command_line(body, true)) + expects(echo(body, true) + value_prefix(body))
}

/// The event with which `step` goes well.
pub open spec fn done(step: Step) -> Event {
    match step {
        Step::Send(b) => Event::Sent(b),
        Step::Expect(b) => Event::Received(b),
    }
}

/// The error with which `step` ends the exchange when it meets `event`;
/// `None` where the event does not end it, or cannot follow from the step.
pub open spec fn fault(step: Step, event: Event) -> Option<Error> {
    match (step, event) {
        (Step::Send(b), Event::SendFailed(c)) => if b == c {
            Some(Error::SerialWrite)
        } else {
            None
        },
        (Step::Expect(_), Event::ReceiveFailed) => Some(Error::SerialRead),
        (Step::Expect(b), Event::Received(c)) => if b != c {
            Some(Error::CommandReadFail)
        } else {
            None
        },
        _ => None,
    }
}

/// The events of a run of `script` in which every step goes well.
pub open spec fn smooth(script: Seq<Step>) -> Seq<Event> {
    Seq::new(script.len(), |i: int| done(script[i]))
}

/// How a run of `script` ends if `seg` is all that happens in it.
///
/// The run ends well when every step went well. It ends with an error at the
/// first step that did not, and nothing happens after that step. `None` where
/// `seg` is no run of `script` from its start to its end.
pub open spec fn script_outcome(script: Seq<Step>, seg: Seq<Event>) -> Option<Result<(), Error>> {
    if seg == smooth(script) {
        Some(Ok(()))
    } else if 0 < seg.len() <= script.len() && seg.drop_last() == smooth(
        script.take(seg.len() - 1),
    ) {
        match fault(script[seg.len() - 1], seg.last()) {
            Some(e) => Some(Err(e)),
            None => None,
        }
    } else {
        None
    }
}

/// How the reading of a reply ends if `seg` is all that happens in it: with
/// what [`scan_result`] makes of the bytes delivered, or with a failure of the
/// transport before the reply was complete.
pub open spec fn scan_outcome(seg: Seq<Event>) -> Option<Result<Seq<u8>, Error>> {
    if seg.len() > 0 && seg.last() == Event::ReceiveFailed {
        let rx = carried(seg.drop_last());
        if seg.drop_last() == receives(rx) && rx.len() < CAPACITY && quiet(rx, rx.len() as int) {
            Some(Err(Error::SerialRead))
        } else {
            None
        }
    } else {
        let rx = carried(seg);
        if seg == receives(rx) {
            scan_result(rx)
        } else {
            None
        }
    }
}

/// How an exchange ends that runs `script` and then reads the reply, if `seg`
/// is all that happens in it: with the error that ended the script, or else as
/// the reading of the reply ends.
pub open spec fn exchange_outcome(script: Seq<Step>, seg: Seq<Event>) -> Option<
    Result<Seq<u8>, Error>,
> {
    if seg.len() >= script.len() && seg.take(script.len() as int) == smooth(script) {
        scan_outcome(seg.skip(script.len() as int))
    } else {
        match script_outcome(script, seg) {
            Some(Err(e)) => Some(Err(e)),
            _ => None,
        }
    }
}

/// The exchange ended with a payload.
pub open spec fn exchange_succeeds(script: Seq<Step>, seg: Seq<Event>) -> bool {
    exchange_outcome(script, seg) matches Some(Ok(_))
}

/// The exchange ended with the error `e`.
pub open spec fn exchange_fails(script: Seq<Step>, seg: Seq<Event>, e: Error) -> bool {
    exchange_outcome(script, seg) == Some(Err::<Seq<u8>, Error>(e))
}

/// A step that does not go well ends the run: where `seg` is a run of
/// `script` and its event at `k` is a fault of the step at `k`, the run ends
/// with the error of that fault, and `k` is the place of its last event.
pub proof fn lemma_fault_ends_run(script: Seq<Step>, seg: Seq<Event>, k: int)
    requires
        script_outcome(script, seg) is Some,
        0 <= k < seg.len(),
        k < script.len(),
        fault(script[k], seg[k]) is Some,
    ensures
        seg.len() == k + 1,
        script_outcome(script, seg) == Some(Err::<(), Error>(fault(script[k], seg[k])->0)),
{
    if seg == smooth(script) {
        assert(seg[k] == done(script[k]));
    } else if k < seg.len() - 1 {
        assert(seg.drop_last()[k] == smooth(script.take(seg.len() - 1))[k]);
    }
}

/// A module that takes every byte of a command and repeats the line as
/// [`echoed`] says lets the command's script end well, whatever the command.
/// So does one that takes a query, repeats its line and announces the value.
pub proof fn lemma_echo_round_trip(body: Seq<u8>)
    ensures
        script_outcome(
            command_script(body),
            smooth(sends(command_line(body, false))) + receives(echoed(command_line(body, false))),
        ) == Some(Ok::<(), Error>(())),
        script_outcome(
            query_script(body),
            smooth(sends(command_line(body, true))) + receives(
                echoed(command_line(body, true)) + value_prefix(body),
            ),
        ) == Some(Ok::<(), Error>(())),
{
    lemma_echo_of_command_line(body, false);
    lemma_echo_of_command_line(body, true);
    assert(smooth(sends(command_line(body, false))) + receives(echo(body, false)) =~= smooth(
        command_script(body),
    ));
    assert(smooth(sends(command_line(body, true))) + receives(echo(body, true) + value_prefix(body))
        =~= smooth(query_script(body)));
}

/// One byte that differs from the byte that the script expects ends the
/// exchange with `CommandReadFail`, and nothing is read after that byte:
/// where `seg` is all that happened in an exchange with `script`, the step at
/// `k` expects `expected` and the event at `k` is the reading of another
/// byte, the exchange has failed and `k` is the place of its last event.
pub proof fn lemma_mismatch_ends_exchange(
    script: Seq<Step>,
    seg: Seq<Event>,
    k: int,
    expected: u8,
    got: u8,
)
    requires
        exchange_outcome(script, seg) is Some,
        0 <= k < seg.len(),
        k < script.len(),
        script[k] == Step::Expect(expected),
        seg[k] == Event::Received(got),
        got != expected,
    ensures
        exchange_fails(script, seg, Error::CommandReadFail),
        seg.len() == k + 1,
{
    if seg.len() >= script.len() && seg.take(script.len() as int) == smooth(script) {
        assert(seg.take(script.len() as int)[k] == done(script[k]));
    } else {
        lemma_fault_ends_run(script, seg, k);
    }
}

/// Where the link delivers `rx` and does not fail, the reading of the reply
/// ends as [`scan_result`] says of `rx`.
pub proof fn lemma_scan_of_received(rx: Seq<u8>)
    ensures
        scan_outcome(receives(rx)) == scan_result(rx),
{
    assert(carried(receives(rx)) =~= rx);
}

/// An exchange whose script goes well ends as the reading of the reply does.
pub proof fn lemma_exchange_reply(script: Seq<Step>, seg1: Seq<Event>, seg2: Seq<Event>)
    requires
        seg1 == smooth(script),
    ensures
        exchange_outcome(script, seg1 + seg2) == scan_outcome(seg2),
{
    let seg = seg1 + seg2;
    assert(seg.take(script.len() as int) =~= seg1);
    assert(seg.skip(script.len() as int) =~= seg2);
}

/// An exchange whose script ends with an error ends with that error, and no
/// reply is read.
pub proof fn lemma_exchange_stops(script: Seq<Step>, seg: Seq<Event>)
    requires
        script_outcome(script, seg) is Some,
        script_outcome(script, seg)->0 is Err,
    ensures
        exchange_outcome(script, seg) == Some(
            Err::<Seq<u8>, Error>(script_outcome(script, seg)->0->Err_0),
        ),
{
    let k = seg.len() - 1;
    if seg.len() >= script.len() && seg.take(script.len() as int) == smooth(script) {
        assert(seg.take(script.len() as int) =~= seg);
        assert(seg[k] == done(script[k]));
    }
}

} // verus!
