//! Framing of the module's reply.
//!
//! The reply is read byte by byte into a buffer of fixed size. Each byte is
//! judged against what the buffer already holds: a line feed that follows
//! `OK`, `ERROR` or `FAIL` and a carriage return ends the reply, every other
//! byte is kept. A buffer that fills up ends the reply as well.

use vstd::prelude::*;
use crate::errors::Error;
use crate::wire::{CR, LF};

verus! {

/// How many bytes of one reply the driver can hold.
pub const CAPACITY: usize = 512;

/// What one more byte means for the reply read so far.
#[derive(Debug, PartialEq, Eq, Structural, Clone, Copy)]
pub enum ScanStep {
    /// The reply goes on: the byte is to be kept.
    Continue,
    /// The reply ended well. Its payload is this many of the bytes kept so far.
    Success(usize),
    /// The reply ended with the module reporting a failure.
    Failure(Error),
}

/// `OK` and a carriage return.
pub open spec fn ok_mark() -> Seq<u8> {
    seq!['O' as u8, 'K' as u8, CR]
}

/// An empty line after a line end, then `OK` and a carriage return.
pub open spec fn framed_ok_mark() -> Seq<u8> {
    seq![CR, LF, CR, LF, 'O' as u8, 'K' as u8, CR]
}

/// `ERROR` and a carriage return.
pub open spec fn error_mark() -> Seq<u8> {
    seq!['E' as u8, 'R' as u8, 'R' as u8, 'O' as u8, 'R' as u8, CR]
}

/// `FAIL` and a carriage return.
pub open spec fn fail_mark() -> Seq<u8> {
    seq!['F' as u8, 'A' as u8, 'I' as u8, 'L' as u8, CR]
}

/// Whether `held` ends in `mark`.
pub open spec fn ends_with(held: Seq<u8>, mark: Seq<u8>) -> bool {
    held.len() >= mark.len() && held.skip(held.len() - mark.len()) == mark
}

/// What `byte` means after the bytes in `held`.
///
/// Only a line feed can end the reply, and only behind one of the marks. The
/// framed form of `OK` is looked for first, so that the empty line in front
/// of it is not taken for payload.
pub open spec fn classify(held: Seq<u8>, byte: u8) -> ScanStep {
    if byte != LF {
        ScanStep::Continue
    } else if ends_with(held, framed_ok_mark()) {
        ScanStep::Success((held.len() - 7) as usize)
    } else if ends_with(held, ok_mark()) {
        ScanStep::Success((held.len() - 3) as usize)
    } else if ends_with(held, error_mark()) {
        ScanStep::Failure(Error::CommandError)
    } else if ends_with(held, fail_mark()) {
        ScanStep::Failure(Error::CommandFailed)
    } else {
        ScanStep::Continue
    }
}

/// None of the first `n` bytes of `rx` ends a reply that starts with `rx`.
pub open spec fn quiet(rx: Seq<u8>, n: int) -> bool {
    forall|j: int| 0 <= j < n ==> classify(#[trigger] rx.take(j), rx[j]) is Continue
}

/// The result of reading a reply from a transport that delivers `rx`, if the
/// reading ends with the last byte of `rx`: the payload, or the failure that
/// the module reported. `None` where the reading would end earlier or go on.
pub open spec fn scan_result(rx: Seq<u8>) -> Option<Result<Seq<u8>, Error>> {
    if 0 < rx.len() <= CAPACITY && quiet(rx, rx.len() - 1) {
        match classify(rx.drop_last(), rx.last()) {
            ScanStep::Success(n) => Some(Ok(rx.take(n as int))),
            ScanStep::Failure(e) => Some(Err(e)),
            ScanStep::Continue => if rx.len() == CAPACITY {
                Some(Ok(rx))
            } else {
                None
            },
        }
    } else {
        None
    }
}

/// A payload that is followed by `OK` and a line end is read back as it is,
/// if and only if the whole fits into the buffer, nothing in it ends the
/// reply before that line end, and the payload does not itself end in a line
/// end and an empty line (which the framed form of `OK` would take away).
pub proof fn lemma_plain_ok_gives_payload(data: Seq<u8>)
    ensures
        scan_result(data + ok_mark() + seq![LF]) == Some(Ok::<Seq<u8>, Error>(data)) <==> {
            &&& data.len() + 4 <= CAPACITY
            &&& quiet(data + ok_mark() + seq![LF], data.len() as int + 3)
            &&& !ends_with(data, seq![CR, LF, CR, LF])
        },
{
    let rx = data + ok_mark() + seq![LF];
    let held = rx.drop_last();
    assert(held =~= data + ok_mark());
    assert(held.skip(held.len() - 3) =~= ok_mark());
    assert(rx.take(data.len() as int) =~= data);
    if data.len() >= 4 {
        assert(held.skip(held.len() - 7) =~= data.skip(data.len() - 4) + ok_mark());
        if ends_with(data, seq![CR, LF, CR, LF]) {
            assert(held.skip(held.len() - 7) =~= framed_ok_mark());
            assert(rx.take(held.len() - 7).len() != data.len());
        } else if ends_with(held, framed_ok_mark()) {
            assert(data.skip(data.len() - 4) =~= framed_ok_mark().take(4));
            assert(framed_ok_mark().take(4) =~= seq![CR, LF, CR, LF]);
        }
    }
}

/// A payload that is followed by a line end, an empty line, `OK` and a line
/// end is read back without any of them, if and only if the whole fits into
/// the buffer and nothing in it ends the reply before the last line end.
pub proof fn lemma_framed_ok_gives_payload(data: Seq<u8>)
    ensures
        scan_result(data + framed_ok_mark() + seq![LF]) == Some(Ok::<Seq<u8>, Error>(data)) <==> {
            &&& data.len() + 8 <= CAPACITY
            &&& quiet(data + framed_ok_mark() + seq![LF], data.len() as int + 7)
        },
{
    let rx = data + framed_ok_mark() + seq![LF];
    let held = rx.drop_last();
    assert(held =~= data + framed_ok_mark());
    assert(held.skip(held.len() - 7) =~= framed_ok_mark());
    assert(rx.take(data.len() as int) =~= data);
}

/// A reply that ends in `ERROR` and a line end is a command error, if and
/// only if the whole fits into the buffer and nothing in it ends the reply
/// before that line end.
pub proof fn lemma_error_reply(data: Seq<u8>)
    ensures
        scan_result(data + error_mark() + seq![LF]) == Some(
            Err::<Seq<u8>, Error>(Error::CommandError),
        ) <==> {
            &&& data.len() + 7 <= CAPACITY
            &&& quiet(data + error_mark() + seq![LF], data.len() as int + 6)
        },
{
    let rx = data + error_mark() + seq![LF];
    let held = rx.drop_last();
    assert(held =~= data + error_mark());
    assert(held.skip(held.len() - 6) =~= error_mark());
    assert(held.skip(held.len() - 3)[1] == 'R' as u8);
    if held.len() >= 7 {
        assert(held.skip(held.len() - 7)[5] == 'R' as u8);
    }
}

/// A reply that ends in `FAIL` and a line end is a failed command, if and
/// only if the whole fits into the buffer and nothing in it ends the reply
/// before that line end.
pub proof fn lemma_fail_reply(data: Seq<u8>)
    ensures
        scan_result(data + fail_mark() + seq![LF]) == Some(
            Err::<Seq<u8>, Error>(Error::CommandFailed),
        ) <==> {
            &&& data.len() + 6 <= CAPACITY
            &&& quiet(data + fail_mark() + seq![LF], data.len() as int + 5)
        },
{
    let rx = data + fail_mark() + seq![LF];
    let held = rx.drop_last();
    assert(held =~= data + fail_mark());
    assert(held.skip(held.len() - 5) =~= fail_mark());
    assert(held.skip(held.len() - 3)[1] == 'L' as u8);
    if held.len() >= 6 {
        assert(held.skip(held.len() - 6)[4] == 'L' as u8);
    }
    if held.len() >= 7 {
        assert(held.skip(held.len() - 7)[5] == 'L' as u8);
    }
}

/// A reply that fills the buffer before anything ends it is handed out as
/// it stands, all of it, as if it had ended well.
pub proof fn lemma_full_buffer(rx: Seq<u8>)
    requires
        rx.len() == CAPACITY,
        quiet(rx, CAPACITY as int),
    ensures
        scan_result(rx) == Some(Ok::<Seq<u8>, Error>(rx)),
{
    assert(rx.take(CAPACITY - 1) =~= rx.drop_last());
    assert(classify(rx.take(CAPACITY - 1), rx[CAPACITY - 1]) is Continue);
}

/// Tells whether `held` ends in `mark`.
pub fn has_suffix(held: &[u8], mark: &[u8]) -> (r: bool)
    ensures
        r == ends_with(held@, mark@),
{
    let n = held.len();
    let m = mark.len();
    if n < m {
        return false;
    }
    let mut k: usize = 0;
    while k < m
        invariant
            n == held@.len(),
            m == mark@.len(),
            m <= n,
            k <= m,
            forall|j: int| 0 <= j < k ==> held@[n - m + j] == mark@[j],
        decreases m - k,
    {
        if held[n - m + k] != mark[k] {
            assert(held@.skip(n - m)[k as int] != mark@[k as int]);
            return false;
        }
        k += 1;
    }
    assert(held@.skip(n - m) =~= mark@);
    true
}

/// Judges `byte` against the bytes kept so far.
pub fn classify_byte(held: &[u8], byte: u8) -> (r: ScanStep)
    ensures
        r == classify(held@, byte),
        r matches ScanStep::Success(n) ==> n <= held@.len(),
{
    if byte != LF {
        return ScanStep::Continue;
    }
    let framed_ok: [u8; 7] = [CR, LF, CR, LF, 'O' as u8, 'K' as u8, CR];
    let ok: [u8; 3] = ['O' as u8, 'K' as u8, CR];
    let error: [u8; 6] = ['E' as u8, 'R' as u8, 'R' as u8, 'O' as u8, 'R' as u8, CR];
    let fail: [u8; 5] = ['F' as u8, 'A' as u8, 'I' as u8, 'L' as u8, CR];
    assert(framed_ok@ =~= framed_ok_mark());
    assert(ok@ =~= ok_mark());
    assert(error@ =~= error_mark());
    assert(fail@ =~= fail_mark());
    if has_suffix(held, &framed_ok) {
        ScanStep::Success(held.len() - 7)
    } else if has_suffix(held, &ok) {
        ScanStep::Success(held.len() - 3)
    } else if has_suffix(held, &error) {
        ScanStep::Failure(Error::CommandError)
    } else if has_suffix(held, &fail) {
        ScanStep::Failure(Error::CommandFailed)
    } else {
        ScanStep::Continue
    }
}

} // verus!
