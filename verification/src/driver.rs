//! The driver: commands of the module over a serial link.
//!
//! The connection state of the module is part of the driver's type. A
//! command that changes the state takes the driver and gives back one of
//! another type, so that a command is only there to be called in the states
//! in which the module takes it.

use core::marker::PhantomData;
use embedded_hal::serial::{Read, Write};
use vstd::prelude::*;
use vstd::string::StringSliceAdditionalSpecFns;
use crate::errors::{EResult, Error};
use crate::exchange::{
    carried, command_script, done, exchange_fails, exchange_outcome, exchange_succeeds, expects,
    fault, lemma_exchange_reply, lemma_exchange_stops, query_script, receives, scan_outcome,
    script_outcome, sends, smooth, Event, Step,
};
use crate::scanner::{classify, classify_byte, quiet, ScanStep, CAPACITY};
use crate::transport::{read_blocking, write_blocking};
use crate::wire::{
    at_prefix, body, command_line, echo, lemma_body_take, query_mark, value_prefix, CR, LF,
};

verus! {

/// A driver for one module on the link `S`, in the connection state `MODE`.
pub struct Esp01<S, MODE> {
    serial: S,
    read_buf: [u8; 512],
    trace: Ghost<Seq<Event>>,
    _mode: PhantomData<MODE>,
}

/// The Wi-Fi mode of the module.
#[derive(Debug, Eq, PartialEq, Structural, Copy, Clone)]
pub enum Mode {
    StationMode,
    SoftAPMode,
    StationAndAPMode,
}

/// The state of a driver whose module has not been given a mode yet.
pub struct UnknownMode {}

/// The state of a driver whose module is a station, joined to an access
/// point or not as `MODE` says.
pub struct StationMode<MODE> {
    _mode: PhantomData<MODE>,
}

/// The station has joined an access point.
pub struct APConnected {}

/// The station has joined no access point.
pub struct APDisconnected {}

/// Whether a setting is to outlast a restart of the module.
#[derive(Debug, Eq, PartialEq, Structural, Copy, Clone)]
pub enum Persist {
    /// The setting holds until the module restarts.
    DontSave,
    /// The setting is kept in flash.
    SaveInFlash,
}

impl Persist {
    /// What a command that sets something carries behind its name.
    pub open spec fn text(self) -> &'static str {
        match self {
            Persist::DontSave => "_CUR=",
            Persist::SaveInFlash => "_DEF=",
        }
    }

    /// What a command that sets something carries behind its name: `_CUR=`
    /// for a setting that is not saved, `_DEF=` for one that is.
    pub fn as_str(&self) -> (r: &'static str)
        ensures
            r@ == self.text()@,
    {
        match self {
            Persist::DontSave => "_CUR=",
            Persist::SaveInFlash => "_DEF=",
        }
    }
}

/// Which of the two values of a setting a query asks for.
#[derive(Debug, Eq, PartialEq, Structural, Copy, Clone)]
pub enum QueryMode {
    /// The value in use.
    Current,
    /// The value kept in flash.
    SavedInFlash,
}

impl QueryMode {
    /// What a query carries behind the name of the setting.
    pub open spec fn text(self) -> &'static str {
        match self {
            QueryMode::Current => "_CUR",
            QueryMode::SavedInFlash => "_DEF",
        }
    }

    /// What a query carries behind the name of the setting: `_CUR` for the
    /// value in use, `_DEF` for the one kept in flash.
    pub fn as_str(&self) -> (r: &'static str)
        ensures
            r@ == self.text()@,
    {
        match self {
            QueryMode::Current => "_CUR",
            QueryMode::SavedInFlash => "_DEF",
        }
    }
}

impl Mode {
    /// The digit that stands for the mode in a command.
    pub open spec fn digit(self) -> &'static str {
        match self {
            Mode::StationMode => "1",
            Mode::SoftAPMode => "2",
            Mode::StationAndAPMode => "3",
        }
    }
}

/// What a function that hands out a payload returns, with the payload as a
/// sequence of bytes.
pub open spec fn payload_of(r: EResult<&[u8]>) -> Result<Seq<u8>, Error> {
    match r {
        Ok(payload) => Ok(payload@),
        Err(e) => Err(e),
    }
}

/// The name of the command that asks for the firmware's version.
pub open spec fn version_command() -> Seq<u8> {
    "GMR".spec_bytes()
}

/// The body of the command that sets the Wi-Fi mode.
pub open spec fn mode_command(mode: Mode, persist: Persist) -> Seq<u8> {
    "CWMODE".spec_bytes() + persist.text().spec_bytes() + mode.digit().spec_bytes()
}

/// The body of the command that sets the station's MAC address: the address
/// stands between double quotes.
pub open spec fn set_mac_command(mac: &str, persist: Persist) -> Seq<u8> {
    "CIPSTAMAC".spec_bytes() + persist.text().spec_bytes() + "\"".spec_bytes() + mac.spec_bytes()
        + "\"".spec_bytes()
}

/// The body of the query for the station's MAC address.
pub open spec fn mac_query(query_mode: QueryMode) -> Seq<u8> {
    "CIPSTAMAC".spec_bytes() + query_mode.text().spec_bytes()
}

/// The body of the command that joins an access point: the name of the
/// network and the password stand between double quotes, with a comma
/// between them.
pub open spec fn join_command(ssid: &str, password: &str, persist: Persist) -> Seq<u8> {
    "CWJAP".spec_bytes() + persist.text().spec_bytes() + "\"".spec_bytes() + ssid.spec_bytes()
        + "\",\"".spec_bytes() + password.spec_bytes() + "\"".spec_bytes()
}

/// The name of the command that leaves the access point.
pub open spec fn leave_command() -> Seq<u8> {
    "CWQAP".spec_bytes()
}

/// The body of the command that says whether the module is to join its
/// access point by itself when it is powered up.
pub open spec fn autoconnect_command(enable: bool) -> Seq<u8> {
    "CWAUTOCONN=".spec_bytes() + (if enable {
        "1"
    } else {
        "0"
    }).spec_bytes()
}

/// A quoted value without its quotes: the payload without its first and its
/// last byte. A payload that is too short to hold two quotes is no value.
pub open spec fn unquoted(found: Result<Seq<u8>, Error>) -> Result<Seq<u8>, Error> {
    match found {
        Ok(payload) => if payload.len() >= 2 {
            Ok(payload.subrange(1, payload.len() - 1))
        } else {
            Err(Error::CommandReadFail)
        },
        Err(e) => Err(e),
    }
}

/// What becomes of a payload that the caller is not given: success stays
/// success, an error stays what it is.
pub open spec fn acknowledged(found: Result<Seq<u8>, Error>) -> Result<(), Error> {
    match found {
        Ok(_) => Ok(()),
        Err(e) => Err(e),
    }
}

/// A place in a script: the script, the trace of the link when its run began,
/// and the number of steps that have gone well since.
struct Run {
    script: Seq<Step>,
    start: Seq<Event>,
    at: int,
}

impl Run {
    /// The same run, `n` steps further on.
    spec fn next(self, n: int) -> Run {
        Run { script: self.script, start: self.start, at: self.at + n }
    }

    /// The steps that come next in the script are `steps`.
    spec fn awaits(self, steps: Seq<Step>) -> bool {
        &&& 0 <= self.at
        &&& self.at + steps.len() <= self.script.len()
        &&& forall|k: int| 0 <= k < steps.len() ==> self.script[self.at + k] == #[trigger] steps[k]
    }
}

/// The steps that move `bytes` one way or the other: written where `out`
/// holds, read back where it does not.
spec fn steps(bytes: Seq<u8>, out: bool) -> Seq<Step> {
    if out {
        sends(bytes)
    } else {
        expects(bytes)
    }
}

/// A piece of what a run awaits is awaited where the piece begins.
proof fn lemma_awaits_piece(run: Run, whole: Seq<u8>, out: bool, from: int, piece: Seq<u8>)
    requires
        run.awaits(steps(whole, out)),
        0 <= from,
        from + piece.len() <= whole.len(),
        whole.subrange(from, from + piece.len()) == piece,
    ensures
        run.next(from).awaits(steps(piece, out)),
{
    let here = run.next(from);
    assert forall|k: int| 0 <= k < steps(piece, out).len() implies here.script[here.at + k]
        == #[trigger] steps(piece, out)[k] by {
        assert(run.script[run.at + (from + k)] == steps(whole, out)[from + k]);
        assert(whole.subrange(from, from + piece.len())[k] == whole[from + k]);
    }
}

impl<S, MODE> Esp01<S, MODE> {
    /// Every call that the driver has made to its link, in order, with what
    /// became of it.
    pub closed spec fn trace(&self) -> Seq<Event> {
        self.trace@
    }

    /// What the buffer holds. A payload that the driver hands out is the
    /// start of it.
    pub closed spec fn held(&self) -> Seq<u8> {
        self.read_buf@
    }

    /// What has happened on the link since its trace was `before`.
    pub open spec fn since(&self, before: Seq<Event>) -> Seq<Event> {
        self.trace().skip(before.len() as int)
    }

    /// The trace has only grown since it was `before`.
    pub open spec fn follows(&self, before: Seq<Event>) -> bool {
        self.trace() == before + self.since(before)
    }

    /// What a function that returns the length of a payload has found: the
    /// payload is that much of the buffer.
    spec fn payload(&self, r: EResult<usize>) -> Result<Seq<u8>, Error> {
        match r {
            Ok(n) => Ok(self.read_buf@.take(n as int)),
            Err(e) => Err(e),
        }
    }

    /// The steps of `run` up to its place have gone well, and nothing else
    /// has happened on the link since the run began.
    spec fn has_run(&self, run: Run) -> bool {
        &&& 0 <= run.at <= run.script.len()
        &&& self.trace@ == run.start + smooth(run.script.take(run.at))
    }

    /// The run has ended with the error `e`.
    spec fn has_stopped(&self, run: Run, e: Error) -> bool {
        &&& self.follows(run.start)
        &&& script_outcome(run.script, self.since(run.start)) == Some(Err::<(), Error>(e))
    }
}

impl<S, MODE> Esp01<S, MODE> where S: Read<u8> + Write<u8> {
    /// Writes a byte to the link.
    fn write_byte(&mut self, byte: u8, Ghost(run): Ghost<Run>) -> (r: EResult<()>)
        requires
            old(self).has_run(run),
            run.awaits(seq![Step::Send(byte)]),
        ensures
            r is Ok ==> final(self).has_run(run.next(1)),
            r matches Err(e) ==> e == Error::SerialWrite && final(self).has_stopped(run, e),
            final(self).read_buf == old(self).read_buf,
    {
        assert(run.script[run.at + 0] == seq![Step::Send(byte)][0]);
        match write_blocking(&mut self.serial, byte) {
            Ok(()) => {
                self.trace = Ghost(self.trace@.push(Event::Sent(byte)));
                assert(self.trace@ =~= run.start + smooth(run.script.take(run.at + 1)));
                Ok(())
            },
            Err(_) => {
                self.trace = Ghost(self.trace@.push(Event::SendFailed(byte)));
                proof {
                    self.lemma_stopped(run, Event::SendFailed(byte));
                }
                Err(Error::SerialWrite)
            },
        }
    }

    /// Reads a byte from the link.
    fn read_byte(&mut self) -> (r: EResult<u8>)
        ensures
            r matches Ok(byte) ==> final(self).trace@ == old(self).trace@.push(
                Event::Received(byte),
            ),
            r is Err ==> final(self).trace@ == old(self).trace@.push(Event::ReceiveFailed),
            r matches Err(e) ==> e == Error::SerialRead,
            final(self).read_buf == old(self).read_buf,
    {
        match read_blocking(&mut self.serial) {
            Ok(byte) => {
                self.trace = Ghost(self.trace@.push(Event::Received(byte)));
                Ok(byte)
            },
            Err(_) => {
                self.trace = Ghost(self.trace@.push(Event::ReceiveFailed));
                Err(Error::SerialRead)
            },
        }
    }

    /// Reads a byte and checks that it is `byte`.
    fn read_byte_back(&mut self, byte: u8, Ghost(run): Ghost<Run>) -> (r: EResult<()>)
        requires
            old(self).has_run(run),
            run.awaits(seq![Step::Expect(byte)]),
        ensures
            r is Ok ==> final(self).has_run(run.next(1)),
            r matches Err(e) ==> final(self).has_stopped(run, e),
            final(self).read_buf == old(self).read_buf,
    {
        assert(run.script[run.at + 0] == seq![Step::Expect(byte)][0]);
        match self.read_byte() {
            Ok(read) => {
                if read == byte {
                    assert(self.trace@ =~= run.start + smooth(run.script.take(run.at + 1)));
                    Ok(())
                } else {
                    proof {
                        self.lemma_stopped(run, Event::Received(read));
                    }
                    Err(Error::CommandReadFail)
                }
            },
            Err(e) => {
                proof {
                    self.lemma_stopped(run, Event::ReceiveFailed);
                }
                Err(e)
            },
        }
    }

    /// A step that does not go well ends the run with the error that the
    /// step gives for the event.
    proof fn lemma_stopped(&self, run: Run, event: Event)
        requires
            0 <= run.at < run.script.len(),
            self.trace@ == (run.start + smooth(run.script.take(run.at))).push(event),
            fault(run.script[run.at], event) is Some,
        ensures
            self.has_stopped(run, fault(run.script[run.at], event)->0),
    {
        let seg = smooth(run.script.take(run.at)).push(event);
        assert(self.trace@ =~= run.start + seg);
        assert(self.trace@.skip(run.start.len() as int) =~= seg);
        assert(seg.drop_last() =~= smooth(run.script.take(run.at)));
        if seg == smooth(run.script) {
            assert(seg[run.at] == done(run.script[run.at]));
        }
    }

    /// Writes `bytes` to the link, or reads them back from it.
    fn transfer(&mut self, bytes: &[u8], out: bool, Ghost(run): Ghost<Run>) -> (r: EResult<()>)
        requires
            old(self).has_run(run),
            run.awaits(steps(bytes@, out)),
        ensures
            r is Ok ==> final(self).has_run(run.next(bytes@.len() as int)),
            r matches Err(e) ==> final(self).has_stopped(run, e),
            final(self).read_buf == old(self).read_buf,
    {
        let mut k: usize = 0;
        while k < bytes.len()
            invariant
                k <= bytes@.len(),
                self.has_run(run.next(k as int)),
                run.awaits(steps(bytes@, out)),
                self.read_buf == old(self).read_buf,
            decreases bytes@.len() - k,
        {
            let byte = bytes[k];
            let ghost here = run.next(k as int);
            assert(run.script[run.at + k] == steps(bytes@, out)[k as int]);
            if out {
                self.write_byte(byte, Ghost(here))?;
            } else {
                self.read_byte_back(byte, Ghost(here))?;
            }
            k += 1;
        }
        Ok(())
    }

    /// Writes the parts of a command to the link, or reads them back from it.
    fn transfer_parts(&mut self, parts: &[&str], out: bool, Ghost(run): Ghost<Run>) -> (r: EResult<
        (),
    >)
        requires
            old(self).has_run(run),
            run.awaits(steps(body(parts@), out)),
        ensures
            r is Ok ==> final(self).has_run(run.next(body(parts@).len() as int)),
            r matches Err(e) ==> final(self).has_stopped(run, e),
            final(self).read_buf == old(self).read_buf,
    {
        let mut j: usize = 0;
        assert(parts@.take(0) =~= Seq::<&str>::empty());
        while j < parts.len()
            invariant
                j <= parts@.len(),
                self.has_run(run.next(body(parts@.take(j as int)).len() as int)),
                run.awaits(steps(body(parts@), out)),
                self.read_buf == old(self).read_buf,
            decreases parts@.len() - j,
        {
            let part = parts[j];
            let ghost so_far = body(parts@.take(j as int));
            let ghost here = run.next(so_far.len() as int);
            proof {
                lemma_body_take(parts@, j as int + 1);
                assert(parts@.take(j as int + 1).drop_last() =~= parts@.take(j as int));
                let whole = steps(body(parts@), out);
                let upto = body(parts@.take(j as int + 1));
                assert(upto == so_far + part.spec_bytes());
                assert forall|k: int| 0 <= k < part.spec_bytes().len() implies here.script[here.at
                    + k] == #[trigger] steps(part.spec_bytes(), out)[k] by {
                    assert(body(parts@)[so_far.len() + k] == upto[so_far.len() + k]);
                    assert(run.script[run.at + (so_far.len() + k)] == whole[so_far.len() + k]);
                }
            }
            self.transfer(part.as_bytes(), out, Ghost(here))?;
            j += 1;
        }
        assert(parts@.take(j as int) =~= parts@);
        Ok(())
    }

    /// Writes the end of a line.
    fn write_line_end(&mut self, Ghost(run): Ghost<Run>) -> (r: EResult<()>)
        requires
            old(self).has_run(run),
            run.awaits(sends(seq![CR, LF])),
        ensures
            r is Ok ==> final(self).has_run(run.next(2)),
            r matches Err(e) ==> final(self).has_stopped(run, e),
            final(self).read_buf == old(self).read_buf,
    {
        assert(run.script[run.at + 0] == sends(seq![CR, LF])[0]);
        assert(run.script[run.at + 1] == sends(seq![CR, LF])[1]);
        self.write_byte(CR, Ghost(run))?;
        self.write_byte(LF, Ghost(run.next(1)))
    }

    /// Checks that the module repeats the command that was sent.
    fn read_command_back(&mut self, command: &[&str], query: bool, Ghost(run): Ghost<Run>) -> (r:
        EResult<()>)
        requires
            old(self).has_run(run),
            run.awaits(expects(echo(body(command@), query))),
        ensures
            r is Ok ==> final(self).has_run(run.next(echo(body(command@), query).len() as int)),
            r matches Err(e) ==> final(self).has_stopped(run, e),
            final(self).read_buf == old(self).read_buf,
    {
        let at: [u8; 3] = ['A' as u8, 'T' as u8, '+' as u8];
        let ghost name = body(command@);
        let ghost whole = echo(name, query);
        let ghost mark = query_mark(query);
        let ghost n = name.len() as int;
        let ghost m = mark.len() as int;
        proof {
            assert(at@ =~= at_prefix());
            assert(whole.subrange(0, 3) =~= at@);
            assert(whole.subrange(3, 3 + n) =~= name);
            assert(whole.subrange(3 + n, 3 + n + m) =~= mark);
            assert(whole.subrange(3 + n + m, whole.len() as int) =~= seq![
                CR,
                CR,
                LF,
            ]);
            lemma_awaits_piece(run, whole, false, 0, at@);
            lemma_awaits_piece(run, whole, false, 3, name);
            lemma_awaits_piece(run, whole, false, 3 + n, mark);
            lemma_awaits_piece(run, whole, false, 3 + n + m, seq![CR, CR, LF]);
        }
        self.transfer(&at, false, Ghost(run))?;
        self.transfer_parts(command, false, Ghost(run.next(3)))?;
        if query {
            let ghost here = run.next(3 + n);
            assert(here.script[here.at + 0] == steps(mark, false)[0]);
            self.read_byte_back('?' as u8, Ghost(here))?;
        }
        let ghost here = run.next(3 + n + m);
        assert(here.script[here.at + 0] == steps(seq![CR, CR, LF], false)[0]);
        assert(here.script[here.at + 1] == steps(seq![CR, CR, LF], false)[1]);
        assert(here.script[here.at + 2] == steps(seq![CR, CR, LF], false)[2]);
        self.read_byte_back(CR, Ghost(here))?;
        self.read_byte_back(CR, Ghost(here.next(1)))?;
        self.read_byte_back(LF, Ghost(here.next(2)))
    }

    /// Writes the line of a command or of a query.
    fn write_command(&mut self, command: &[&str], query: bool, Ghost(run): Ghost<Run>) -> (r:
        EResult<()>)
        requires
            old(self).has_run(run),
            run.awaits(sends(command_line(body(command@), query))),
        ensures
            r is Ok ==> final(self).has_run(
                run.next(command_line(body(command@), query).len() as int),
            ),
            r matches Err(e) ==> final(self).has_stopped(run, e),
            final(self).read_buf == old(self).read_buf,
    {
        let at: [u8; 3] = ['A' as u8, 'T' as u8, '+' as u8];
        let ghost name = body(command@);
        let ghost whole = command_line(name, query);
        let ghost mark = query_mark(query);
        let ghost n = name.len() as int;
        let ghost m = mark.len() as int;
        proof {
            assert(at@ =~= at_prefix());
            assert(whole.subrange(0, 3) =~= at@);
            assert(whole.subrange(3, 3 + n) =~= name);
            assert(whole.subrange(3 + n, 3 + n + m) =~= mark);
            assert(whole.subrange(3 + n + m, whole.len() as int) =~= seq![CR, LF]);
            lemma_awaits_piece(run, whole, true, 0, at@);
            lemma_awaits_piece(run, whole, true, 3, name);
            lemma_awaits_piece(run, whole, true, 3 + n, mark);
            lemma_awaits_piece(run, whole, true, 3 + n + m, seq![CR, LF]);
        }
        self.transfer(&at, true, Ghost(run))?;
        self.transfer_parts(command, true, Ghost(run.next(3)))?;
        if query {
            let ghost here = run.next(3 + n);
            assert(here.script[here.at + 0] == steps(mark, true)[0]);
            self.write_byte('?' as u8, Ghost(here))?;
        }
        self.write_line_end(Ghost(run.next(3 + n + m)))
    }

    /// Sends a command and checks that the module repeats it.
    fn send_command(&mut self, command: &[&str]) -> (r: EResult<()>)
        ensures
            final(self).follows(old(self).trace()),
            script_outcome(command_script(body(command@)), final(self).since(old(self).trace()))
                == Some(r),
            final(self).read_buf == old(self).read_buf,
    {
        let ghost name = body(command@);
        let ghost line = command_line(name, false);
        let ghost run = Run { script: command_script(name), start: self.trace@, at: 0 };
        proof {
            assert(self.trace@ =~= run.start + smooth(run.script.take(0)));
            assert(run.awaits(sends(line)));
            assert(run.next(line.len() as int).awaits(expects(echo(name, false))));
        }
        self.write_command(command, false, Ghost(run))?;
        self.read_command_back(command, false, Ghost(run.next(line.len() as int)))?;
        proof {
            self.lemma_finished(run);
        }
        Ok(())
    }

    /// A run whose every step has gone well has ended well.
    proof fn lemma_finished(&self, run: Run)
        requires
            self.has_run(run.next(run.script.len() - run.at)),
        ensures
            self.trace@ == run.start + smooth(run.script),
            self.follows(run.start),
            self.since(run.start) == smooth(run.script),
            script_outcome(run.script, self.since(run.start)) == Some(Ok::<(), Error>(())),
    {
        assert(run.script.take(run.script.len() as int) =~= run.script);
        assert(self.trace@.skip(run.start.len() as int) =~= smooth(run.script));
    }

    /// Sends a command, checks that the module repeats it, and reads the
    /// reply. Returns the length of the payload, which is then the start of
    /// the buffer.
    fn command(&mut self, command: &[&str]) -> (r: EResult<usize>)
        ensures
            final(self).follows(old(self).trace()),
            exchange_outcome(
                command_script(body(command@)),
                final(self).since(old(self).trace()),
            ) == Some(final(self).payload(r)),
            r matches Ok(n) ==> n <= CAPACITY,
    {
        let ghost before = self.trace@;
        let ghost script = command_script(body(command@));
        match self.send_command(command) {
            Ok(()) => {},
            Err(e) => {
                proof {
                    lemma_exchange_stops(script, self.since(before));
                }
                return Err(e);
            },
        }
        self.reply(Ghost(script), Ghost(before))
    }

    /// Reads the reply that ends an exchange whose script has gone well.
    /// Returns the length of the payload, which is then the start of the
    /// buffer.
    fn reply(&mut self, Ghost(script): Ghost<Seq<Step>>, Ghost(before): Ghost<Seq<Event>>) -> (r:
        EResult<usize>)
        requires
            old(self).trace@ == before + smooth(script),
        ensures
            final(self).follows(before),
            exchange_outcome(script, final(self).since(before)) == Some(final(self).payload(r)),
            r matches Ok(n) ==> n <= CAPACITY,
    {
        let ghost middle = self.trace@;
        let r = match self.read_response() {
            Ok(payload) => Ok(payload.len()),
            Err(e) => Err(e),
        };
        proof {
            let seg = self.since(middle);
            lemma_exchange_reply(script, smooth(script), seg);
            assert(self.trace@ =~= before + (smooth(script) + seg));
            assert(self.since(before) =~= smooth(script) + seg);
        }
        r
    }

    /// Sends a query and checks that the module repeats it and announces the
    /// value.
    fn query_steps(&mut self, command: &[&str], Ghost(run): Ghost<Run>) -> (r: EResult<()>)
        requires
            old(self).has_run(run),
            run.at == 0,
            run.script == query_script(body(command@)),
        ensures
            r is Ok ==> final(self).has_run(run.next(run.script.len() as int)),
            r matches Err(e) ==> final(self).has_stopped(run, e),
            final(self).read_buf == old(self).read_buf,
    {
        let ghost name = body(command@);
        let ghost back = echo(name, true) + value_prefix(name);
        let ghost sent = command_line(name, true).len() as int;
        let ghost n = echo(name, true).len() as int;
        let ghost m = name.len() as int;
        let ghost then = run.next(sent);
        proof {
            assert(run.awaits(sends(command_line(name, true))));
            assert(then.awaits(expects(back)));
            assert(back.subrange(0, n) =~= echo(name, true));
            assert(back.subrange(n, n + 1) =~= seq!['+' as u8]);
            assert(back.subrange(n + 1, n + 1 + m) =~= name);
            assert(back.subrange(n + 1 + m, n + 2 + m) =~= seq![':' as u8]);
            lemma_awaits_piece(then, back, false, 0, echo(name, true));
            lemma_awaits_piece(then, back, false, n, seq!['+' as u8]);
            lemma_awaits_piece(then, back, false, n + 1, name);
            lemma_awaits_piece(then, back, false, n + 1 + m, seq![':' as u8]);
        }
        self.write_command(command, true, Ghost(run))?;
        self.read_command_back(command, true, Ghost(then))?;
        self.read_byte_back('+' as u8, Ghost(then.next(n)))?;
        self.transfer_parts(command, false, Ghost(then.next(n + 1)))?;
        self.read_byte_back(':' as u8, Ghost(then.next(n + 1 + m)))
    }

    /// Sends a query, checks that the module repeats it and announces the
    /// value, and reads the reply. Returns the length of the payload, which
    /// is then the start of the buffer.
    fn send_query(&mut self, command: &[&str]) -> (r: EResult<usize>)
        ensures
            final(self).follows(old(self).trace()),
            exchange_outcome(query_script(body(command@)), final(self).since(old(self).trace()))
                == Some(final(self).payload(r)),
            r matches Ok(n) ==> n <= CAPACITY,
    {
        let ghost before = self.trace@;
        let ghost script = query_script(body(command@));
        let ghost run = Run { script, start: before, at: 0 };
        assert(self.trace@ =~= run.start + smooth(run.script.take(0)));
        match self.query_steps(command, Ghost(run)) {
            Ok(()) => {},
            Err(e) => {
                proof {
                    lemma_exchange_stops(script, self.since(before));
                }
                return Err(e);
            },
        }
        proof {
            self.lemma_finished(run);
        }
        self.reply(Ghost(script), Ghost(before))
    }

    /// Reads the module's reply to a command.
    ///
    /// Bytes are read until one of them ends the reply or the buffer is
    /// full. What is returned is what [`scan_outcome`] makes of the calls to
    /// the link, and no byte is read beyond the one that ends the reply.
    pub fn read_response(&mut self) -> (r: EResult<&[u8]>)
        ensures
            final(self).follows(old(self).trace()),
            scan_outcome(final(self).since(old(self).trace())) == Some(payload_of(r)),
            r matches Ok(payload) ==> payload@.len() <= CAPACITY && payload@ == final(self).held().take(
                payload@.len() as int,
            ),
    {
        let ghost before = self.trace@;
        let ghost mut rx: Seq<u8> = Seq::empty();
        let mut i: usize = 0;
        assert(self.trace@ =~= before + receives(rx));
        while i < CAPACITY
            invariant
                before == old(self).trace(),
                i <= CAPACITY,
                rx.len() == i,
                self.read_buf@.take(i as int) == rx,
                self.trace@ == before + receives(rx),
                quiet(rx, i as int),
            decreases CAPACITY - i,
        {
            let byte = match self.read_byte() {
                Ok(byte) => byte,
                Err(e) => {
                    proof {
                        let seg = receives(rx).push(Event::ReceiveFailed);
                        assert(self.trace@ =~= before + seg);
                        assert(self.trace@.skip(before.len() as int) =~= seg);
                        assert(seg.drop_last() =~= receives(rx));
                        assert(carried(receives(rx)) =~= rx);
                    }
                    return Err(e);
                },
            };
            let step = classify_byte(&self.read_buf[0..i], byte);
            proof {
                let next = rx.push(byte);
                let seg = receives(next);
                assert(self.trace@ =~= before + seg);
                assert(self.trace@.skip(before.len() as int) =~= seg);
                assert(carried(seg) =~= next);
                assert(next.drop_last() =~= rx);
                assert(next.take(i as int) =~= rx);
                assert forall|j: int| 0 <= j < i implies classify(
                    #[trigger] next.take(j),
                    next[j],
                ) is Continue by {
                    assert(next.take(j) =~= rx.take(j));
                }
            }
            match step {
                ScanStep::Continue => {
                    self.read_buf[i] = byte;
                    i += 1;
                    proof {
                        rx = rx.push(byte);
                        assert(self.read_buf@.take(i as int) =~= rx);
                    }
                },
                ScanStep::Success(n) => {
                    assert(self.read_buf@.subrange(0, n as int) =~= rx.push(byte).take(n as int));
                    return Ok(&self.read_buf[0..n]);
                },
                ScanStep::Failure(e) => {
                    return Err(e);
                },
            }
        }
        proof {
            assert(self.trace@.skip(before.len() as int) =~= receives(rx));
            assert(carried(receives(rx)) =~= rx);
            assert(self.read_buf@.subrange(0, i as int) =~= rx);
        }
        Ok(&self.read_buf[0..i])
    }

    /// Asks the module for the version of its firmware.
    ///
    /// The command `AT+GMR` is exchanged, and the payload of the reply is
    /// returned.
    pub fn get_version(&mut self) -> (r: EResult<&[u8]>)
        ensures
            final(self).follows(old(self).trace()),
            exchange_outcome(command_script(version_command()), final(self).since(old(self).trace()))
                == Some(payload_of(r)),
    {
        let command = ["GMR"];
        proof {
            reveal_with_fuel(body, 2);
        }
        let n = self.command(&command)?;
        Ok(&self.read_buf[0..n])
    }

    /// Sets the Wi-Fi mode of the module.
    ///
    /// The command `AT+CWMODE`, with `_CUR=` or `_DEF=` and the digit of the
    /// mode, is exchanged. Where the module accepts it, the driver comes back
    /// in the state of a station that has joined no access point. Where the
    /// exchange fails, the driver is lost with it.
    pub fn set_mode(self, mode: Mode, persist: Persist) -> (r: EResult<
        Esp01<S, StationMode<APDisconnected>>,
    >)
        ensures
            match r {
                Ok(next) => next.follows(self.trace()) && exchange_succeeds(
                    command_script(mode_command(mode, persist)),
                    next.since(self.trace()),
                ),
                Err(e) => exists|seg: Seq<Event>|
                    exchange_fails(command_script(mode_command(mode, persist)), seg, e),
            },
    {
        let mut driver = self;
        let mode_str = match mode {
            Mode::StationMode => "1",
            Mode::SoftAPMode => "2",
            Mode::StationAndAPMode => "3",
        };
        let ghost before = driver.trace@;
        let command = ["CWMODE", persist.as_str(), mode_str];
        proof {
            reveal_with_fuel(body, 4);
        }
        match driver.command(&command) {
            Ok(_) => {},
            Err(e) => {
                assert(exchange_fails(
                    command_script(mode_command(mode, persist)),
                    driver.since(before),
                    e,
                ));
                return Err(e);
            },
        }
        Ok(Esp01 { serial: driver.serial, read_buf: driver.read_buf, trace: driver.trace, _mode: PhantomData })
    }

    /// Sets the MAC address of the station.
    ///
    /// The command `AT+CIPSTAMAC`, with `_CUR=` or `_DEF=` and the address
    /// between double quotes, is exchanged, and the payload of the reply is
    /// returned.
    pub fn set_station_mac(&mut self, mac: &str, persist: Persist) -> (r: EResult<&[u8]>)
        ensures
            final(self).follows(old(self).trace()),
            exchange_outcome(
                command_script(set_mac_command(mac, persist)),
                final(self).since(old(self).trace()),
            ) == Some(payload_of(r)),
    {
        let command = ["CIPSTAMAC", persist.as_str(), "\"", mac, "\""];
        proof {
            reveal_with_fuel(body, 6);
        }
        let n = self.command(&command)?;
        Ok(&self.read_buf[0..n])
    }

    /// Asks the module for the MAC address of the station.
    ///
    /// The query `AT+CIPSTAMAC_CUR?` or `AT+CIPSTAMAC_DEF?` is exchanged.
    /// The payload of the reply is the address between double quotes; it is
    /// returned without its first and its last byte. A payload of fewer than
    /// two bytes is answered with `CommandReadFail`.
    pub fn get_station_mac(&mut self, query_mode: QueryMode) -> (r: EResult<&[u8]>)
        ensures
            final(self).follows(old(self).trace()),
            exchange_outcome(query_script(mac_query(query_mode)), final(self).since(old(self).trace()))
                is Some,
            payload_of(r) == unquoted(
                exchange_outcome(
                    query_script(mac_query(query_mode)),
                    final(self).since(old(self).trace()),
                )->0,
            ),
    {
        let command = ["CIPSTAMAC", query_mode.as_str()];
        proof {
            reveal_with_fuel(body, 3);
        }
        let n = self.send_query(&command)?;
        if n < 2 {
            return Err(Error::CommandReadFail);
        }
        assert(self.read_buf@.subrange(1, n - 1) =~= self.read_buf@.take(n as int).subrange(
            1,
            n - 1,
        ));
        Ok(&self.read_buf[1..(n - 1)])
    }
}

impl<S> Esp01<S, StationMode<APDisconnected>> where S: Read<u8> + Write<u8> {
    /// Joins an access point.
    ///
    /// The command `AT+CWJAP`, with `_CUR=` or `_DEF=`, the name of the
    /// network and the password, is exchanged. Where the module accepts it,
    /// the driver comes back in the state of a station that has joined an
    /// access point. Where the exchange fails, the driver is lost with it.
    pub fn connect_ap(self, ssid: &str, password: &str, persist: Persist) -> (r: EResult<
        Esp01<S, StationMode<APConnected>>,
    >)
        ensures
            match r {
                Ok(next) => next.follows(self.trace()) && exchange_succeeds(
                    command_script(join_command(ssid, password, persist)),
                    next.since(self.trace()),
                ),
                Err(e) => exists|seg: Seq<Event>|
                    exchange_fails(command_script(join_command(ssid, password, persist)), seg, e),
            },
    {
        let mut driver = self;
        let ghost before = driver.trace@;
        let command = ["CWJAP", persist.as_str(), "\"", ssid, "\",\"", password, "\""];
        proof {
            reveal_with_fuel(body, 8);
        }
        match driver.command(&command) {
            Ok(_) => {},
            Err(e) => {
                assert(exchange_fails(
                    command_script(join_command(ssid, password, persist)),
                    driver.since(before),
                    e,
                ));
                return Err(e);
            },
        }
        Ok(Esp01 { serial: driver.serial, read_buf: driver.read_buf, trace: driver.trace, _mode: PhantomData })
    }
}

impl<S> Esp01<S, StationMode<APConnected>> where S: Read<u8> + Write<u8> {
    /// Leaves the access point.
    ///
    /// The command `AT+CWQAP` is exchanged. Where the module accepts it, the
    /// driver comes back in the state of a station that has joined no access
    /// point. Where the exchange fails, the driver is lost with it.
    pub fn disconnect_ap(self) -> (r: EResult<Esp01<S, StationMode<APDisconnected>>>)
        ensures
            match r {
                Ok(next) => next.follows(self.trace()) && exchange_succeeds(
                    command_script(leave_command()),
                    next.since(self.trace()),
                ),
                Err(e) => exists|seg: Seq<Event>|
                    exchange_fails(command_script(leave_command()), seg, e),
            },
    {
        let mut driver = self;
        let ghost before = driver.trace@;
        let command = ["CWQAP"];
        proof {
            reveal_with_fuel(body, 2);
        }
        match driver.command(&command) {
            Ok(_) => {},
            Err(e) => {
                assert(exchange_fails(command_script(leave_command()), driver.since(before), e));
                return Err(e);
            },
        }
        Ok(Esp01 { serial: driver.serial, read_buf: driver.read_buf, trace: driver.trace, _mode: PhantomData })
    }

    /// Says whether the module is to join its access point by itself when it
    /// is powered up. The module keeps the setting in flash.
    ///
    /// The command `AT+CWAUTOCONN=`, with `1` to switch this on and `0` to
    /// switch it off, is exchanged.
    pub fn autoconnect_ap(&mut self, enable: bool) -> (r: EResult<()>)
        ensures
            final(self).follows(old(self).trace()),
            exchange_outcome(
                command_script(autoconnect_command(enable)),
                final(self).since(old(self).trace()),
            ) is Some,
            r == acknowledged(
                exchange_outcome(
                    command_script(autoconnect_command(enable)),
                    final(self).since(old(self).trace()),
                )->0,
            ),
    {
        let param = match enable {
            true => "1",
            false => "0",
        };
        let command = ["CWAUTOCONN=", param];
        proof {
            reveal_with_fuel(body, 3);
        }
        self.command(&command)?;
        Ok(())
    }
}

/// Makes a driver for the module behind `serial`. Nothing is known of the
/// module's state, and nothing has happened on the link.
pub fn esp01<S>(serial: S) -> (r: Esp01<S, UnknownMode>) where S: Read<u8> + Write<u8>,
    ensures
        r.trace() == Seq::<Event>::empty(),
{
    Esp01 { serial, read_buf: [0;512], trace: Ghost(Seq::empty()), _mode: PhantomData }
}

} // verus!
