//! What holds of reading a request, whatever the stream holds.

use vstd::prelude::*;

use crate::body::first_non_whitespace;
use crate::body::is_first_newline;
use crate::body::is_first_non_whitespace;
use crate::body::line_content;
use crate::body::line_read;
use crate::body::peek_window;
use crate::body::is_ascii_whitespace;
use crate::body::read_body_panics;
use crate::body::spec_line_body;
use crate::body::spec_netstring_body;
use crate::body::spec_plan_body_read;
use crate::body::spec_read_body;
use crate::body::through_first_newline;
use crate::body::BodyPlan;
use crate::body::NEWLINE;
use crate::body::OPEN_BRACE;
use crate::body::OPEN_BRACKET;
use crate::error::UnixError;
use crate::netstring::decimal;
use crate::netstring::is_digit;
use crate::netstring::lemma_decimal_u32_len;
use crate::netstring::lemma_decode_formatted_size;
use crate::netstring::lemma_decode_needs_leading_digit;
use crate::netstring::netstring;
use crate::netstring::is_first_colon;
use crate::netstring::COLON;
use crate::netstring::COMMA;
use crate::netstring::PLUS;

verus! {

/// Law: a netstring-framed request is read back as the data it frames, when
/// the data fits the limit, starts with `{` (a single request) or `[` (a batch),
/// and the first peek saw the whole size prefix; whatever follows it on the
/// stream is left unread.
pub proof fn lemma_netstring_request_read_back(
    json: Seq<u8>,
    rest: Seq<u8>,
    peeked_len: nat,
    max_body_size: u32,
)
    requires
        0 < json.len() <= max_body_size,
        json[0] == OPEN_BRACE || json[0] == OPEN_BRACKET,
        decimal(json.len()).len() + 1 <= peeked_len <= netstring(json).len() + rest.len(),
    ensures
        spec_read_body(netstring(json) + rest, peeked_len, max_body_size) == Ok::<(Seq<u8>, bool), UnixError>(
            (json, json[0] == OPEN_BRACE),
        ),
        !read_body_panics(netstring(json) + rest, peeked_len, max_body_size),
{
    let n = json.len() as u32;
    let d = decimal(n as nat);
    let h = d.len() + 1;
    let input = netstring(json) + rest;
    lemma_decimal_u32_len(n);
    let w = peek_window(input.take(peeked_len as int));
    let tail = w.skip(h as int);
    assert forall|i: int| 0 <= i < h implies w[i] == (d + seq![COLON])[i] by {
        assert(w[i] == input[i]);
    }
    assert(w =~= d + seq![COLON] + tail);
    lemma_decode_formatted_size(n, tail);
    assert(spec_plan_body_read(input.take(peeked_len as int), max_body_size) == BodyPlan::Netstring {
        size: n,
        header_len: h as usize,
    });
    let after = input.skip(h as int);
    assert(after =~= json + seq![COMMA] + rest);
    let data = after.take(n + 1);
    assert(data =~= json + seq![COMMA]);
    assert(data.take(n as int) =~= json);
}

/// Law: a size prefix over the limit is refused as too large, whatever follows
/// it, when the first peek saw the whole prefix.
pub proof fn lemma_netstring_too_large(
    size: u32,
    rest: Seq<u8>,
    peeked_len: nat,
    max_body_size: u32,
)
    requires
        size > max_body_size,
        decimal(size as nat).len() + 1 <= peeked_len <= decimal(size as nat).len() + 1
            + rest.len(),
    ensures
        spec_read_body(decimal(size as nat) + seq![COLON] + rest, peeked_len, max_body_size)
            == Err::<(Seq<u8>, bool), UnixError>(UnixError::TooLarge),
        !read_body_panics(decimal(size as nat) + seq![COLON] + rest, peeked_len, max_body_size),
{
    let d = decimal(size as nat);
    let h = d.len() + 1;
    let input = d + seq![COLON] + rest;
    lemma_decimal_u32_len(size);
    let w = peek_window(input.take(peeked_len as int));
    let tail = w.skip(h as int);
    assert forall|i: int| 0 <= i < h implies w[i] == (d + seq![COLON])[i] by {
        assert(w[i] == input[i]);
    }
    assert(w =~= d + seq![COLON] + tail);
    lemma_decode_formatted_size(size, tail);
}

/// A stream that does not start with a digit or `+` is read as a line.
proof fn lemma_plan_newline(input: Seq<u8>, peeked_len: nat, max_body_size: u32)
    requires
        input.len() > 0,
        !is_digit(input[0]),
        input[0] != PLUS,
        peeked_len <= input.len(),
    ensures
        spec_plan_body_read(input.take(peeked_len as int), max_body_size) == BodyPlan::Newline,
{
    let w = peek_window(input.take(peeked_len as int));
    if w.len() > 0 {
        assert(w[0] == input[0]);
        lemma_decode_needs_leading_digit(w);
    } else {
        assert(!exists|i: int| is_first_colon(w, i));
    }
}

/// Law: a newline-delimited request is read back as the line without its
/// `\n`, when the line with its `\n` fits the limit, does not start with a
/// digit or `+`, and its first byte that is not whitespace is `{` (a single
/// request) or `[` (a batch); whatever follows the `\n` is left unread.
pub proof fn lemma_line_request_read_back(
    line: Seq<u8>,
    rest: Seq<u8>,
    peeked_len: nat,
    max_body_size: u32,
)
    requires
        0 < line.len() < max_body_size,
        forall|i: int| 0 <= i < line.len() ==> line[i] != NEWLINE,
        !is_digit(line[0]),
        line[0] != PLUS,
        first_non_whitespace(line) == Some(OPEN_BRACE) || first_non_whitespace(line) == Some(
            OPEN_BRACKET,
        ),
        peeked_len <= line.len() + 1 + rest.len(),
    ensures
        spec_read_body(line + seq![NEWLINE] + rest, peeked_len, max_body_size) == Ok::<(Seq<u8>, bool), UnixError>(
            (line, first_non_whitespace(line) == Some(OPEN_BRACE)),
        ),
        !read_body_panics(line + seq![NEWLINE] + rest, peeked_len, max_body_size),
{
    let input = line + seq![NEWLINE] + rest;
    assert(input[0] == line[0]);
    lemma_plan_newline(input, peeked_len, max_body_size);
    let avail = if input.len() <= max_body_size {
        input
    } else {
        input.take(max_body_size as int)
    };
    let k = line.len() as int;
    assert(is_first_newline(avail, k));
    assert((choose|i: int| is_first_newline(avail, i)) == k);
    assert(line_read(input, max_body_size) =~= line + seq![NEWLINE]);
    assert(line_content(line + seq![NEWLINE]) =~= line);
}

/// Law: a line that fills the limit without a `\n` is refused as too large.
pub proof fn lemma_line_too_large(input: Seq<u8>, peeked_len: nat, max_body_size: u32)
    requires
        0 < max_body_size <= input.len(),
        forall|i: int| 0 <= i < max_body_size ==> input[i] != NEWLINE,
        !is_digit(input[0]),
        input[0] != PLUS,
        peeked_len <= input.len(),
    ensures
        spec_read_body(input, peeked_len, max_body_size) == Err::<(Seq<u8>, bool), UnixError>(
            UnixError::TooLarge,
        ),
        !read_body_panics(input, peeked_len, max_body_size),
{
    lemma_plan_newline(input, peeked_len, max_body_size);
    let avail = input.take(max_body_size as int);
    assert(avail =~= (if input.len() <= max_body_size {
        input
    } else {
        input.take(max_body_size as int)
    }));
    assert(!exists|i: int| is_first_newline(avail, i));
    assert(line_read(input, max_body_size) == avail);
}

/// Law: a body that is read never exceeds the limit, and it is a single
/// request exactly when its first byte that is not whitespace is `{`, a batch
/// exactly when that byte is `[`.
pub proof fn lemma_read_body_ok(input: Seq<u8>, peeked_len: nat, max_body_size: u32)
    requires
        peeked_len <= input.len(),
    ensures
        spec_read_body(input, peeked_len, max_body_size) matches Ok((body, single)) ==> {
            &&& body.len() <= max_body_size
            &&& first_non_whitespace(body) == Some(
                if single {
                    OPEN_BRACE
                } else {
                    OPEN_BRACKET
                },
            )
        },
{
    match spec_plan_body_read(input.take(peeked_len as int), max_body_size) {
        BodyPlan::Netstring { size, header_len } => {
            let after = input.skip(header_len as int);
            if after.len() >= size + 1 {
                let data = after.take(size + 1);
                if let Ok((body, single)) = spec_netstring_body(data, size as nat) {
                    assert(size > 0);
                    assert(body[0] == data[0]);
                    assert(is_first_non_whitespace(body, 0));
                    assert((choose|i: int| is_first_non_whitespace(body, i)) == 0);
                }
            }
        },
        BodyPlan::Newline => {
            let avail = if input.len() <= max_body_size {
                input
            } else {
                input.take(max_body_size as int)
            };
            assert(through_first_newline(avail).len() <= avail.len());
        },
        BodyPlan::TooLarge => {},
    }
}

/// Law: a line that the stream ended before any `\n`, shorter than the limit,
/// is a whole request: its body is all of it, a single request when its first
/// byte that is not whitespace (at `k`) is `{`, a batch when that byte is `[`.
pub proof fn lemma_unterminated_line_body(line: Seq<u8>, max_body_size: u32, k: int)
    requires
        0 < line.len() < max_body_size,
        forall|i: int| 0 <= i < line.len() ==> line[i] != NEWLINE,
        0 <= k < line.len(),
        forall|j: int| 0 <= j < k ==> is_ascii_whitespace(line[j]),
        line[k] == OPEN_BRACE || line[k] == OPEN_BRACKET,
    ensures
        spec_line_body(line, max_body_size) == Ok::<(Seq<u8>, bool), UnixError>(
            (line, line[k] == OPEN_BRACE),
        ),
{
    assert(line.last() != NEWLINE);
    assert(line_content(line) == line);
    assert(is_first_non_whitespace(line, k));
    assert((choose|i: int| is_first_non_whitespace(line, i)) == k);
}

/// Law: whether a line ends with `\n` or with the end of the stream does not
/// change how it is read, as long as the line with its `\n` fits the limit.
pub proof fn lemma_line_terminator_irrelevant(line: Seq<u8>, max_body_size: u32)
    requires
        0 < line.len(),
        line.len() + 1 <= max_body_size,
        forall|i: int| 0 <= i < line.len() ==> line[i] != NEWLINE,
    ensures
        spec_line_body(line + seq![NEWLINE], max_body_size) == spec_line_body(
            line,
            max_body_size,
        ),
{
    assert(line.last() != NEWLINE);
    assert(line_content(line + seq![NEWLINE]) =~= line);
    assert(line_content(line) == line);
}

/// Law: a stream that ends before the limit without any `\n`, and does not
/// start with a digit or `+`, is read whole, however many bytes the first peek
/// saw: a single request when its first byte that is not whitespace (at `k`)
/// is `{`, a batch when it is `[`.
pub proof fn lemma_stream_end_read_back(
    input: Seq<u8>,
    peeked_len: nat,
    max_body_size: u32,
    k: int,
)
    requires
        0 < input.len() < max_body_size,
        forall|i: int| 0 <= i < input.len() ==> input[i] != NEWLINE,
        !is_digit(input[0]),
        input[0] != PLUS,
        peeked_len <= input.len(),
        0 <= k < input.len(),
        forall|j: int| 0 <= j < k ==> is_ascii_whitespace(input[j]),
        input[k] == OPEN_BRACE || input[k] == OPEN_BRACKET,
    ensures
        spec_read_body(input, peeked_len, max_body_size) == Ok::<(Seq<u8>, bool), UnixError>(
            (input, input[k] == OPEN_BRACE),
        ),
        !read_body_panics(input, peeked_len, max_body_size),
{
    lemma_plan_newline(input, peeked_len, max_body_size);
    assert(!exists|i: int| is_first_newline(input, i));
    assert(line_read(input, max_body_size) == input);
    lemma_unterminated_line_body(input, max_body_size, k);
}

/// Law: a stream that does not start with a digit or `+` is read the same way
/// whatever either of two first peeks saw of it.
pub proof fn lemma_line_read_ignores_peek(
    input: Seq<u8>,
    peeked_a: nat,
    peeked_b: nat,
    max_body_size: u32,
)
    requires
        input.len() > 0,
        !is_digit(input[0]),
        input[0] != PLUS,
        peeked_a <= input.len(),
        peeked_b <= input.len(),
    ensures
        spec_read_body(input, peeked_a, max_body_size) == spec_read_body(
            input,
            peeked_b,
            max_body_size,
        ),
{
    lemma_plan_newline(input, peeked_a, max_body_size);
    lemma_plan_newline(input, peeked_b, max_body_size);
}

/// Law: a body read as a line is the stream itself up to its first `\n`, or
/// up to its end when it has none: a prefix of the stream, free of `\n`, that
/// stops at a `\n` or at the end of the stream.
pub proof fn lemma_line_body_is_stream_prefix(input: Seq<u8>, peeked_len: nat, max_body_size: u32)
    requires
        input.len() > 0,
        !is_digit(input[0]),
        input[0] != PLUS,
        peeked_len <= input.len(),
    ensures
        spec_read_body(input, peeked_len, max_body_size) matches Ok((body, _)) ==> {
            &&& body.len() <= input.len()
            &&& body == input.take(body.len() as int)
            &&& forall|j: int| 0 <= j < body.len() ==> input[j] != NEWLINE
            &&& body.len() == input.len() || input[body.len() as int] == NEWLINE
        },
{
    lemma_plan_newline(input, peeked_len, max_body_size);
    let avail = if input.len() <= max_body_size {
        input
    } else {
        input.take(max_body_size as int)
    };
    if exists|i: int| is_first_newline(avail, i) {
        let m = choose|i: int| is_first_newline(avail, i);
        let line = avail.take(m + 1);
        assert(line_read(input, max_body_size) == line);
        assert(line.last() == NEWLINE);
        assert(line_content(line) =~= input.take(m));
        assert(input[m] == avail[m]);
        assert forall|j: int| 0 <= j < m implies input[j] != NEWLINE by {
            assert(input[j] == avail[j]);
        }
    } else {
        assert(line_read(input, max_body_size) == avail);
        assert forall|j: int| 0 <= j < avail.len() implies avail[j] != NEWLINE by {
            if avail[j] == NEWLINE {
                lemma_first_newline_exists(avail, j);
            }
        }
        if avail.len() > 0 {
            assert(avail.last() != NEWLINE);
        }
        assert(line_content(avail) == avail);
        if input.len() <= max_body_size {
            assert(input.take(input.len() as int) =~= input);
        } else {
            assert(avail.len() == max_body_size);
            assert(spec_read_body(input, peeked_len, max_body_size) is Err);
        }
    }
}

/// A `\n` at `j` means `s` has a first `\n`.
proof fn lemma_first_newline_exists(s: Seq<u8>, j: int)
    requires
        0 <= j < s.len(),
        s[j] == NEWLINE,
    ensures
        exists|i: int| is_first_newline(s, i),
    decreases j,
{
    if exists|k: int| 0 <= k < j && s[k] == NEWLINE {
        let k = choose|k: int| 0 <= k < j && s[k] == NEWLINE;
        lemma_first_newline_exists(s, k);
    } else {
        assert(is_first_newline(s, j));
    }
}

/// Law: after a size prefix `n:` within the limit, the body read is exactly
/// the `n` bytes that follow the `:`, and only when a `,` comes right after
/// them; a stream that ends before that `,` is malformed.
pub proof fn lemma_netstring_body_is_framed_data(
    n: u32,
    rest: Seq<u8>,
    peeked_len: nat,
    max_body_size: u32,
)
    requires
        n <= max_body_size,
        decimal(n as nat).len() + 1 <= peeked_len <= decimal(n as nat).len() + 1 + rest.len(),
    ensures
        spec_read_body(decimal(n as nat) + seq![COLON] + rest, peeked_len, max_body_size) matches Ok(
            (body, _),
        ) ==> n < rest.len() && body == rest.take(n as int) && rest[n as int] == COMMA,
        rest.len() <= n ==> spec_read_body(
            decimal(n as nat) + seq![COLON] + rest,
            peeked_len,
            max_body_size,
        ) == Err::<(Seq<u8>, bool), UnixError>(UnixError::Malformed),
{
    let d = decimal(n as nat);
    let h = d.len() + 1;
    let input = d + seq![COLON] + rest;
    lemma_decimal_u32_len(n);
    let w = peek_window(input.take(peeked_len as int));
    let tail = w.skip(h as int);
    assert forall|i: int| 0 <= i < h implies w[i] == (d + seq![COLON])[i] by {
        assert(w[i] == input[i]);
    }
    assert(w =~= d + seq![COLON] + tail);
    lemma_decode_formatted_size(n, tail);
    assert(spec_plan_body_read(input.take(peeked_len as int), max_body_size) == BodyPlan::Netstring {
        size: n,
        header_len: h as usize,
    });
    let after = input.skip(h as int);
    assert(after =~= rest);
    if rest.len() > n {
        let data = after.take(n + 1);
        assert(data.take(n as int) =~= rest.take(n as int));
        assert(data[n as int] == rest[n as int]);
    }
}

} // verus!
