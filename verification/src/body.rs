//! Reading one JSON-RPC request body from a Unix domain socket.
//!
//! A request is either netstring-framed (`size:data,`) or newline-delimited.
//! The reader first peeks at what is buffered; if its first bytes are a
//! netstring size prefix, it reads exactly `size` bytes and a trailing comma,
//! otherwise it reads one line of at most `max_body_size` bytes. The body must
//! start with `{` (a single request) or `[` (a batch).
//!
//! The functions here make each of those decisions on bytes that the caller
//! read; `read_body_from_slice` runs them all on a stream held in memory.

use vstd::prelude::*;

use crate::error::UnixError;
use crate::netstring::decode_netstring_size;
use crate::netstring::spec_decode_netstring_size;
use crate::netstring::COMMA;

verus! {

/// How many bytes are peeked for a netstring prefix: `4294967295:` is the longest.
pub const PREFIX_WINDOW: usize = 11;

/// The byte `\n` that ends a newline-delimited request.
pub const NEWLINE: u8 = 10;

/// The byte `{` that starts a single request.
pub const OPEN_BRACE: u8 = 123;

/// The byte `[` that starts a batch request.
pub const OPEN_BRACKET: u8 = 91;

/// What to do after peeking at the buffered bytes.
#[derive(Debug, Clone, Copy, PartialEq, Eq, Structural)]
pub enum BodyPlan {
    /// The request is a netstring of `size` bytes: discard the first
    /// `header_len` bytes (the size and the `:`), then read `size + 1` bytes.
    Netstring { size: u32, header_len: usize },
    /// The request is a netstring longer than the limit.
    TooLarge,
    /// The request is one line: read up to the limit, through the first `\n`.
    Newline,
}

/// The bytes that are examined for a netstring prefix: at most the first
/// `PREFIX_WINDOW` of those peeked.
pub open spec fn peek_window(peeked: Seq<u8>) -> Seq<u8> {
    if peeked.len() <= PREFIX_WINDOW {
        peeked
    } else {
        peeked.take(PREFIX_WINDOW as int)
    }
}

/// The plan for the peeked bytes `peeked` and the limit `max_body_size`.
pub open spec fn spec_plan_body_read(peeked: Seq<u8>, max_body_size: u32) -> BodyPlan {
    match spec_decode_netstring_size(peek_window(peeked)) {
        Some((size, colon)) => if size > max_body_size {
            BodyPlan::TooLarge
        } else {
            BodyPlan::Netstring { size, header_len: (colon + 1) as usize }
        },
        None => BodyPlan::Newline,
    }
}

/// The outcome of a read, with the body taken by its contents.
pub open spec fn outcome_view(r: Result<(Vec<u8>, bool), UnixError>) -> Result<
    (Seq<u8>, bool),
    UnixError,
> {
    match r {
        Ok((body, single)) => Ok((body@, single)),
        Err(e) => Err(e),
    }
}

/// The outcome for the `size + 1` bytes `data` read after a netstring prefix:
/// they must end with `,`, and the body before it must start with `{` or `[`.
pub open spec fn spec_netstring_body(data: Seq<u8>, size: nat) -> Result<(Seq<u8>, bool), UnixError> {
    if data[size as int] != COMMA {
        Err(UnixError::Malformed)
    } else if data[0] == OPEN_BRACE {
        Ok((data.take(size as int), true))
    } else if data[0] == OPEN_BRACKET {
        Ok((data.take(size as int), false))
    } else {
        Err(UnixError::Malformed)
    }
}

/// The one input on which reading a netstring body fails by indexing an empty
/// body: the netstring `0:,`.
pub open spec fn netstring_body_panics(data: Seq<u8>, size: nat) -> bool {
    size == 0 && data[0] == COMMA
}

/// `b` is ASCII whitespace as `u8::is_ascii_whitespace` has it: space, tab,
/// line feed, form feed or carriage return.
pub open spec fn is_ascii_whitespace(b: u8) -> bool {
    b == 32 || b == 9 || b == 10 || b == 12 || b == 13
}

/// `i` is the index of the first byte of `s` that is not whitespace.
pub open spec fn is_first_non_whitespace(s: Seq<u8>, i: int) -> bool {
    &&& 0 <= i < s.len()
    &&& !is_ascii_whitespace(s[i])
    &&& forall|j: int| 0 <= j < i ==> is_ascii_whitespace(s[j])
}

/// The first byte of `s` that is not whitespace, if there is one.
pub open spec fn first_non_whitespace(s: Seq<u8>) -> Option<u8> {
    if exists|i: int| is_first_non_whitespace(s, i) {
        Some(s[choose|i: int| is_first_non_whitespace(s, i)])
    } else {
        None
    }
}

/// `line` without its final `\n`, if it has one.
pub open spec fn line_content(line: Seq<u8>) -> Seq<u8> {
    if line.len() > 0 && line.last() == NEWLINE {
        line.drop_last()
    } else {
        line
    }
}

/// The outcome for a line `line` read with the limit `max_body_size`: an
/// empty read is malformed; a read that filled the limit without reaching a
/// `\n` is too large; otherwise the body is the line without its `\n`, and its
/// first byte that is not whitespace must be `{` or `[`.
pub open spec fn spec_line_body(line: Seq<u8>, max_body_size: u32) -> Result<(Seq<u8>, bool), UnixError> {
    if line.len() == 0 {
        Err(UnixError::Malformed)
    } else if line.len() == max_body_size && line.last() != NEWLINE {
        Err(UnixError::TooLarge)
    } else {
        let body = line_content(line);
        let first = first_non_whitespace(body);
        if first == Some(OPEN_BRACE) {
            Ok((body, true))
        } else if first == Some(OPEN_BRACKET) {
            Ok((body, false))
        } else {
            Err(UnixError::Malformed)
        }
    }
}

/// `i` is the index of the first `\n` in `s`.
pub open spec fn is_first_newline(s: Seq<u8>, i: int) -> bool {
    &&& 0 <= i < s.len()
    &&& s[i] == NEWLINE
    &&& forall|j: int| 0 <= j < i ==> s[j] != NEWLINE
}

/// `avail` up to and including its first `\n`, or all of it if it has none.
pub open spec fn through_first_newline(avail: Seq<u8>) -> Seq<u8> {
    if exists|i: int| is_first_newline(avail, i) {
        avail.take((choose|i: int| is_first_newline(avail, i)) + 1)
    } else {
        avail
    }
}

/// What one read of a line gives on the stream `input` with the limit
/// `max_body_size`: the bytes up to and including the first `\n`, but no more
/// than the limit, and no more than the stream holds.
pub open spec fn line_read(input: Seq<u8>, max_body_size: u32) -> Seq<u8> {
    through_first_newline(
        if input.len() <= max_body_size {
            input
        } else {
            input.take(max_body_size as int)
        },
    )
}

/// The outcome of reading one request from the stream `input`, of which a
/// first peek saw `peeked_len` bytes, with the limit `max_body_size`.
pub open spec fn spec_read_body(input: Seq<u8>, peeked_len: nat, max_body_size: u32) -> Result<
    (Seq<u8>, bool),
    UnixError,
> {
    match spec_plan_body_read(input.take(peeked_len as int), max_body_size) {
        BodyPlan::TooLarge => Err(UnixError::TooLarge),
        BodyPlan::Netstring { size, header_len } => {
            let after = input.skip(header_len as int);
            if after.len() < size + 1 {
                // the stream ends before the netstring does
                Err(UnixError::Malformed)
            } else {
                spec_netstring_body(after.take(size + 1), size as nat)
            }
        },
        BodyPlan::Newline => spec_line_body(line_read(input, max_body_size), max_body_size),
    }
}

/// Reading one request from `input` indexes an empty body: the stream starts
/// with the netstring `0:,`.
pub open spec fn read_body_panics(input: Seq<u8>, peeked_len: nat, max_body_size: u32) -> bool {
    match spec_plan_body_read(input.take(peeked_len as int), max_body_size) {
        BodyPlan::Netstring { size, header_len } => size == 0 && input.len() > header_len
            && input[header_len as int] == COMMA,
        _ => false,
    }
}

/// Decides, from the bytes that a first peek at the stream returned, whether
/// the request is netstring-framed (and within `max_body_size`) or newline-delimited.
pub fn plan_body_read(peeked: &[u8], max_body_size: u32) -> (plan: BodyPlan)
    ensures
        plan == spec_plan_body_read(peeked@, max_body_size),
        plan matches BodyPlan::Netstring { size, header_len } ==> 0 < header_len <= peeked@.len()
            && header_len <= PREFIX_WINDOW && size <= max_body_size,
{
    // Peek up to 11 bytes to check if this is a netstring-framed request
    let len = if peeked.len() < PREFIX_WINDOW {
        peeked.len()
    } else {
        PREFIX_WINDOW
    };
    let window = vstd::slice::slice_subrange(peeked, 0, len);
    assert(window@ =~= peek_window(peeked@));
    match decode_netstring_size(window) {
        Some((size, colon)) => {
            if size > max_body_size {
                BodyPlan::TooLarge
            } else {
                BodyPlan::Netstring { size, header_len: colon + 1 }
            }
        },
        None => BodyPlan::Newline,
    }
}

/// Checks the `size + 1` bytes read after a netstring prefix: the trailing
/// comma, and whether the body is a single request (`{`) or a batch (`[`).
pub fn finish_netstring_body(data: Vec<u8>, size: u32) -> (r: Result<(Vec<u8>, bool), UnixError>)
    requires
        data@.len() == size + 1,
        !netstring_body_panics(data@, size as nat),
    ensures
        outcome_view(r) == spec_netstring_body(data@, size as nat),
{
    let size = size as usize;
    // Verify trailing comma
    if data[size] != COMMA {
        return Err(UnixError::Malformed);
    }
    let mut data = data;
    let ghost full = data@;
    // Truncate to remove trailing comma
    data.truncate(size);
    assert(data@ =~= full.take(size as int));
    assert(data@[0] == full[0]);
    let is_single = if data[0] == OPEN_BRACE {
        true
    } else if data[0] == OPEN_BRACKET {
        false
    } else {
        return Err(UnixError::Malformed);
    };
    Ok((data, is_single))
}

/// The error for a failed read of a netstring body: a stream that ended too
/// early makes the request malformed; any other I/O error is passed on.
pub fn netstring_read_error(err: std::io::Error, unexpected_eof: bool) -> (r: UnixError)
    ensures
        unexpected_eof ==> r == UnixError::Malformed,
        !unexpected_eof ==> r == UnixError::Io(err),
{
    if unexpected_eof {
        UnixError::Malformed
    } else {
        UnixError::Io(err)
    }
}

fn is_whitespace_byte(b: u8) -> (r: bool)
    ensures
        r == is_ascii_whitespace(b),
{
    b == 32 || b == 9 || b == 10 || b == 12 || b == 13
}

/// Checks a line read with the limit `max_body_size`: that it is not empty,
/// that it did not fill the limit without a newline, and whether the body is a
/// single request or a batch by its first byte that is not whitespace.
pub fn finish_line_body(line: Vec<u8>, max_body_size: u32) -> (r: Result<(Vec<u8>, bool), UnixError>)
    ensures
        outcome_view(r) == spec_line_body(line@, max_body_size),
{
    let n = line.len();
    if n == 0 {
        return Err(UnixError::Malformed);
    }
    // If we read exactly max_body_size and the last byte is not '\n', the message is too large
    if n as u64 == max_body_size as u64 && line[n - 1] != NEWLINE {
        return Err(UnixError::TooLarge);
    }
    let mut body = line;
    let ghost full = body@;
    // Remove trailing newline if present
    if body[n - 1] == NEWLINE {
        body.truncate(n - 1);
        assert(body@ =~= full.drop_last());
    }
    assert(body@ == line_content(full));
    // Determine if this is a single request or batch by checking the first non-whitespace character
    let mut i: usize = 0;
    while i < body.len() && is_whitespace_byte(body[i])
        invariant
            i <= body@.len(),
            forall|j: int| 0 <= j < i ==> is_ascii_whitespace(body@[j]),
        decreases body@.len() - i,
    {
        i = i + 1;
    }
    if i == body.len() {
        assert(!exists|k: int| is_first_non_whitespace(body@, k));
        return Err(UnixError::Malformed);
    }
    assert(is_first_non_whitespace(body@, i as int));
    assert((choose|k: int| is_first_non_whitespace(body@, k)) == i as int);
    let first = body[i];
    if first == OPEN_BRACE {
        Ok((body, true))
    } else if first == OPEN_BRACKET {
        Ok((body, false))
    } else {
        Err(UnixError::Malformed)
    }
}

/// Reads one request from a stream held in memory, `input`, of which a first
/// peek returned `peeked_len` bytes, with the limit `max_body_size`.
///
/// Returns `Ok((bytes, single))` if the body was in valid size range, with a
/// bool that tells a single request from a batch; `Err` if the body was too
/// large or malformed.
pub fn read_body_from_slice(input: &[u8], peeked_len: usize, max_body_size: u32) -> (r: Result<
    (Vec<u8>, bool),
    UnixError,
>)
    requires
        peeked_len <= input@.len(),
        !read_body_panics(input@, peeked_len as nat, max_body_size),
    ensures
        outcome_view(r) == spec_read_body(input@, peeked_len as nat, max_body_size),
{
    let peeked = vstd::slice::slice_subrange(input, 0, peeked_len);
    assert(peeked@ =~= input@.take(peeked_len as int));
    match plan_body_read(peeked, max_body_size) {
        BodyPlan::TooLarge => Err(UnixError::TooLarge),
        BodyPlan::Netstring { size, header_len } => {
            let ghost after = input@.skip(header_len as int);
            let remaining = input.len() - header_len;
            if size as usize >= remaining {
                return Err(UnixError::Malformed);
            }
            let end = header_len + size as usize + 1;
            let data = vstd::slice::slice_to_vec(vstd::slice::slice_subrange(input, header_len, end));
            assert(data@ =~= after.take(size + 1));
            finish_netstring_body(data, size)
        },
        BodyPlan::Newline => {
            let limit: usize = if input.len() <= max_body_size as usize {
                input.len()
            } else {
                max_body_size as usize
            };
            let ghost avail = input@.take(limit as int);
            let mut end: usize = 0;
            while end < limit && input[end] != NEWLINE
                invariant
                    end <= limit <= input@.len(),
                    forall|j: int| 0 <= j < end ==> input@[j] != NEWLINE,
                decreases limit - end,
            {
                end = end + 1;
            }
            assert(avail =~= (if input@.len() <= max_body_size {
                input@
            } else {
                input@.take(max_body_size as int)
            }));
            let ghost expected = line_read(input@, max_body_size);
            let stop = if end < limit {
                assert(is_first_newline(avail, end as int));
                assert((choose|i: int| is_first_newline(avail, i)) == end as int);
                assert(expected == avail.take(end + 1));
                end + 1
            } else {
                assert(!exists|i: int| is_first_newline(avail, i));
                assert(expected == avail);
                limit
            };
            let line = vstd::slice::slice_to_vec(vstd::slice::slice_subrange(input, 0, stop));
            assert(line@ =~= expected);
            finish_line_body(line, max_body_size)
        },
    }
}

} // verus!
