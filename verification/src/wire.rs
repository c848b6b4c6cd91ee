//! The bytes that travel in each direction of one command exchange.
//!
//! A command goes out as `AT+`, its body and a line end. The module repeats
//! the line back with its own framing, and announces the value of a query by
//! the queried name between `+` and `:`.

use vstd::prelude::*;
use vstd::string::StringSliceAdditionalSpecFns;

verus! {

/// Carriage return.
pub const CR: u8 = 0x0D;

/// Line feed.
pub const LF: u8 = 0x0A;

/// `AT+`, which opens every command.
pub open spec fn at_prefix() -> Seq<u8> {
    seq!['A' as u8, 'T' as u8, '+' as u8]
}

/// `?` where the command is a query, nothing where it is not.
pub open spec fn query_mark(query: bool) -> Seq<u8> {
    if query {
        seq!['?' as u8]
    } else {
        Seq::empty()
    }
}

/// The bytes of a command's parts, one part after the other.
pub open spec fn body(parts: Seq<&str>) -> Seq<u8>
    decreases parts.len(),
{
    if parts.len() == 0 {
        Seq::empty()
    } else {
        body(parts.drop_last()) + parts.last().spec_bytes()
    }
}

/// The line that carries a command to the module.
pub open spec fn command_line(body: Seq<u8>, query: bool) -> Seq<u8> {
    at_prefix() + body + query_mark(query) + seq![CR, LF]
}

/// What the module sends back before it answers: the line up to its carriage
/// return, then an empty line.
pub open spec fn echo(body: Seq<u8>, query: bool) -> Seq<u8> {
    at_prefix() + body + query_mark(query) + seq![CR, CR, LF]
}

/// What a module that repeats its input makes of a line it was sent: it holds
/// back the line feed and closes with an empty line of its own.
pub open spec fn echoed(line: Seq<u8>) -> Seq<u8> {
    line.drop_last() + seq![CR, LF]
}

/// The announcement in front of a queried value: `+`, the name, `:`.
pub open spec fn value_prefix(body: Seq<u8>) -> Seq<u8> {
    seq!['+' as u8] + body + seq![':' as u8]
}

/// The echo that the driver waits for is what an echoing module makes of the
/// line that the driver wrote.
pub proof fn lemma_echo_of_command_line(body: Seq<u8>, query: bool)
    ensures
        echoed(command_line(body, query)) == echo(body, query),
{
    let stem = at_prefix() + body + query_mark(query);
    assert(command_line(body, query).drop_last() =~= stem + seq![CR]);
    assert(echoed(command_line(body, query)) =~= echo(body, query));
}

/// The body of the first `n` parts is the start of the body of all parts.
pub proof fn lemma_body_take(parts: Seq<&str>, n: int)
    requires
        0 <= n <= parts.len(),
    ensures
        body(parts.take(n)).is_prefix_of(body(parts)),
    decreases parts.len() - n,
{
    if n == parts.len() {
        assert(parts.take(n) =~= parts);
    } else {
        lemma_body_take(parts, n + 1);
        assert(parts.take(n + 1).drop_last() =~= parts.take(n));
    }
}

} // verus!
