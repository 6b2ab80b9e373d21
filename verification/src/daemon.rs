//! The line protocol of the completion daemon: one JSON request per line, one
//! JSON answer per line.
use vstd::prelude::*;
use crate::engine::CompletionEngine;
use crate::error::BmError;
use crate::store::CompletionEntry;
use crate::text::{chars_of, join2, string_of};

verus! {

/// The cursor position of a request: the one given, else the end of the buffer
/// (its length in bytes).
pub fn request_position(buffer: &str, position: Option<usize>) -> (r: usize)
    ensures
        r == match position {
            Some(p) => p,
            None => buffer.len(),
        },
{
    match position {
        Some(p) => p,
        None => buffer.len(),
    }
}

/// The position a request is completed at: the one given, else the buffer's length
/// in bytes.
pub open spec fn position_of(buffer: &str, position: Option<usize>) -> usize {
    match position {
        Some(p) => p,
        None => buffer.len(),
    }
}

/// Completes a decoded request with the engine, at the request's position: the
/// answer is one that the engine gives for the buffer at that position.
pub fn complete_request<E: CompletionEngine>(
    engine: &E,
    buffer: &str,
    position: Option<usize>,
) -> (r: Result<Vec<CompletionEntry>, BmError>)
    ensures
        call_ensures(E::complete, (engine, buffer, position_of(buffer, position)), r),
{
    let pos = request_position(buffer, position);
    let answer = E::complete;
    answer(engine, buffer, pos)
}

/// The answer line for an encoded answer: the text followed by a newline.
pub fn response_line(json: &str) -> (r: String)
    ensures
        r@ == json@.push('\n'),
{
    let mut out = json.to_owned();
    out.push('\n');
    out
}

/// The answer line for a failed request: `{"error": "<message>"}` and a newline.
pub fn error_line(message: &str) -> (r: String)
    ensures
        r@ == "{\"error\": \""@ + message@ + "\"}\n"@,
{
    let a = chars_of("{\"error\": \"");
    let m = chars_of(message);
    let b = chars_of("\"}\n");
    let am = join2(a.as_slice(), m.as_slice());
    let amb = join2(am.as_slice(), b.as_slice());
    string_of(amb.as_slice())
}

} // verus!
