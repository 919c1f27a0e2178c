//! How messages are framed on the wires of the adaptor: behind a length of
//! four bytes towards the runtime, line by line towards the connector.

use crate::catalog::{message_failures, trace_level, Message, TraceLevel};
use crate::errors::{create_custom_error, Error, IoError, IoErrorKind};
use byteorder::ByteOrder;
use vstd::prelude::*;
use vstd::slice::slice_subrange;

verus! {

/// The number that four bytes stand for, lowest byte first.
pub open spec fn le_u32(b: Seq<u8>) -> int {
    b[0] as int + 256 * (b[1] as int) + 65536 * (b[2] as int) + 16777216 * (b[3] as int)
}

/// The four bytes that stand for a number, lowest byte first.
pub open spec fn le_bytes(n: u32) -> Seq<u8> {
    seq![
        (n % 256) as u8,
        ((n / 256) % 256) as u8,
        ((n / 65536) % 256) as u8,
        (n / 16777216) as u8,
    ]
}

/// The four bytes of a number stand for that number.
pub proof fn lemma_le_round_trip(n: u32)
    ensures
        le_bytes(n).len() == 4,
        le_u32(le_bytes(n)) == n,
{
}

/// Calls `byteorder::LittleEndian::read_u32`, which reads the first four
/// bytes of a buffer as a number, lowest byte first, and panics on a shorter
/// buffer.
#[verifier::external_body]
fn read_length(buf: &[u8]) -> (r: u32)
    requires
        buf@.len() >= 4,
    ensures
        r == le_u32(buf@),
{
    byteorder::LittleEndian::read_u32(buf)
}

/// Calls `byteorder::LittleEndian::write_u32`, which writes a number into
/// the first four bytes of a buffer, lowest byte first.
#[verifier::external_body]
fn write_length(n: u32) -> (r: Vec<u8>)
    ensures
        r@ == le_bytes(n),
{
    let mut buf = vec![0u8; 4];
    byteorder::LittleEndian::write_u32(&mut buf, n);
    buf
}

/// A message framed: its length in four bytes, lowest first, and the message.
pub open spec fn framed(payload: Seq<u8>) -> Seq<u8> {
    le_bytes(payload.len() as u32) + payload
}

/// Frames a message. A message of more bytes than four bytes can count is refused.
pub fn encode_message(payload: &[u8]) -> (r: Result<Vec<u8>, IoError>)
    ensures
        match r {
            Ok(bytes) => payload@.len() <= u32::MAX && bytes@ == framed(payload@),
            Err(e) => payload@.len() > u32::MAX && e.kind == IoErrorKind::Other,
        },
{
    let n: usize = payload.len();
    if n > 0xffff_ffff {
        return Err(create_custom_error("message is too long to be framed"));
    }
    let mut out = write_length(n as u32);
    let ghost head = out@;
    let mut i: usize = 0;
    while i < n
        invariant
            n == payload@.len(),
            i <= n,
            out@ == head + payload@.take(i as int),
        decreases n - i,
    {
        out.push(payload[i]);
        assert(out@ =~= head + payload@.take(i + 1));
        i = i + 1;
    }
    assert(payload@.take(n as int) =~= payload@);
    Ok(out)
}

/// The message of the frame at the beginning of the bytes; none where the
/// bytes end before the frame does.
pub open spec fn first_frame(input: Seq<u8>) -> Option<Seq<u8>> {
    if input.len() >= 4 && input.len() >= 4 + le_u32(input.take(4)) {
        Some(input.subrange(4, 4 + le_u32(input.take(4))))
    } else {
        None
    }
}

/// Reads the message of the frame at the beginning of the bytes, and says
/// how many bytes the frame takes. At the end of the bytes there is none,
/// also where they end inside a frame.
pub fn decode_message(input: &[u8]) -> (r: Option<(Vec<u8>, usize)>)
    ensures
        match r {
            Some((payload, used)) => first_frame(input@) == Some(payload@) && used == 4
                + payload@.len() && used <= input@.len(),
            None => first_frame(input@) is None,
        },
{
    let total: usize = input.len();
    if total < 4 {
        return None;
    }
    let head = slice_subrange(input, 0, 4);
    assert(head@ =~= input@.take(4));
    let length = read_length(head) as usize;
    if total - 4 < length {
        return None;
    }
    let mut out: Vec<u8> = Vec::new();
    let mut i: usize = 0;
    while i < length
        invariant
            total == input@.len(),
            4 + length <= total,
            i <= length,
            out@ == input@.subrange(4, 4 + i),
        decreases length - i,
    {
        out.push(input[4 + i]);
        assert(out@ =~= input@.subrange(4, 4 + i + 1));
        i = i + 1;
    }
    Some((out, 4 + length))
}

/// A message that is framed and read again is the same message, whatever
/// follows the frame.
pub proof fn lemma_framed_is_read(payload: Seq<u8>, rest: Seq<u8>)
    requires
        payload.len() <= u32::MAX,
    ensures
        first_frame(framed(payload) + rest) == Some(payload),
{
    let input = framed(payload) + rest;
    lemma_le_round_trip(payload.len() as u32);
    assert(input.take(4) =~= le_bytes(payload.len() as u32));
    assert(input.subrange(4, 4 + payload.len() as int) =~= payload);
}

/// The messages of the frames that the bytes hold, one after the other,
/// up to where the bytes end.
pub open spec fn frames(input: Seq<u8>) -> Seq<Seq<u8>>
    decreases input.len(),
{
    match first_frame(input) {
        Some(p) => seq![p] + frames(input.skip(4 + p.len() as int)),
        None => Seq::empty(),
    }
}

/// The views of a run of byte strings.
pub open spec fn byte_views(v: Seq<Vec<u8>>) -> Seq<Seq<u8>> {
    Seq::new(v.len(), |i: int| v[i]@)
}

/// Reads the messages of all the frames that the bytes hold.
pub fn stream_runtime_messages(input: &[u8]) -> (r: Vec<Vec<u8>>)
    ensures
        byte_views(r@) == frames(input@),
{
    let total: usize = input.len();
    let mut out: Vec<Vec<u8>> = Vec::new();
    let mut at: usize = 0;
    proof {
        assert(input@.skip(0) =~= input@);
        assert(byte_views(out@) + frames(input@.skip(0)) =~= frames(input@));
    }
    loop
        invariant
            total == input@.len(),
            at <= total,
            byte_views(out@) + frames(input@.skip(at as int)) == frames(input@),
        decreases total - at,
    {
        let rest = slice_subrange(input, at, total);
        assert(rest@ =~= input@.skip(at as int));
        match decode_message(rest) {
            Some((payload, used)) => {
                let ghost before = byte_views(out@);
                let ghost pv = payload@;
                out.push(payload);
                proof {
                    assert(byte_views(out@) =~= before.push(pv));
                    assert(input@.skip(at as int).skip(used as int) =~= input@.skip(at + used));
                    assert(byte_views(out@) + frames(input@.skip(at + used)) =~= before + frames(
                        input@.skip(at as int),
                    ));
                }
                at = at + used;
            },
            None => {
                assert(byte_views(out@) =~= frames(input@));
                return out;
            },
        }
    }
}

/// Reads the first message that the runtime sent. It is a failure where
/// there is none.
pub fn get_decoded_message(input: &[u8]) -> (r: Result<Vec<u8>, IoError>)
    ensures
        match r {
            Ok(payload) => first_frame(input@) == Some(payload@),
            Err(e) => first_frame(input@) is None && e.kind == IoErrorKind::Other && e.message@
                == "missing request"@,
        },
{
    match decode_message(input) {
        Some((payload, _)) => Ok(payload),
        None => Err(create_custom_error("missing request")),
    }
}

/// The pieces of the bytes between the newlines: one more piece than
/// there are newlines.
pub open spec fn pieces(input: Seq<u8>) -> Seq<Seq<u8>>
    decreases input.len(),
{
    if input.len() == 0 {
        seq![Seq::empty()]
    } else {
        let before = pieces(input.drop_last());
        if input.last() == 10u8 {
            before.push(Seq::empty())
        } else {
            before.update(before.len() - 1, before.last().push(input.last()))
        }
    }
}

/// The lines of the bytes: what stands before each newline, and what
/// stands after the last one if anything does.
pub open spec fn lines(input: Seq<u8>) -> Seq<Seq<u8>> {
    if pieces(input).last().len() == 0 {
        pieces(input).drop_last()
    } else {
        pieces(input)
    }
}

/// Splits the bytes into lines.
pub fn stream_lines(input: &[u8]) -> (r: Vec<Vec<u8>>)
    ensures
        byte_views(r@) == lines(input@),
{
    let total: usize = input.len();
    let mut out: Vec<Vec<u8>> = Vec::new();
    let mut current: Vec<u8> = Vec::new();
    let mut i: usize = 0;
    proof {
        assert(input@.take(0) =~= Seq::<u8>::empty());
        assert(byte_views(out@).push(current@) =~= pieces(input@.take(0)));
    }
    while i < total
        invariant
            total == input@.len(),
            i <= total,
            byte_views(out@).push(current@) == pieces(input@.take(i as int)),
        decreases total - i,
    {
        let ghost done = byte_views(out@);
        let ghost cur = current@;
        proof {
            assert(input@.take(i + 1).drop_last() =~= input@.take(i as int));
            assert(input@.take(i + 1).last() == input@[i as int]);
        }
        if input[i] == 10 {
            out.push(current);
            current = Vec::new();
            assert(byte_views(out@).push(current@) =~= done.push(cur).push(Seq::empty()));
        } else {
            current.push(input[i]);
            assert(byte_views(out@).push(current@) =~= done.push(cur).update(
                done.len() as int,
                cur.push(input@[i as int]),
            ));
        }
        i = i + 1;
    }
    proof {
        assert(input@.take(total as int) =~= input@);
    }
    let ghost done = byte_views(out@);
    if current.len() > 0 {
        let ghost cur = current@;
        out.push(current);
        assert(byte_views(out@) =~= done.push(cur));
    } else {
        assert(done =~= done.push(current@).drop_last());
    }
    out
}

/// The bytes with a newline after them.
pub fn with_newline(bytes: &[u8]) -> (r: Vec<u8>)
    ensures
        r@ == bytes@.push(10u8),
{
    let n: usize = bytes.len();
    let mut out: Vec<u8> = Vec::new();
    let mut i: usize = 0;
    while i < n
        invariant
            n == bytes@.len(),
            i <= n,
            out@ == bytes@.take(i as int),
        decreases n - i,
    {
        out.push(bytes[i]);
        assert(out@ =~= bytes@.take(i + 1));
        i = i + 1;
    }
    assert(bytes@.take(n as int) =~= bytes@);
    out.push(10);
    out
}

/// The kind of answer that the adaptor waits for from the connector.
#[derive(Clone, Copy, Debug, PartialEq, Eq, Structural)]
pub enum Expected {
    Spec,
    Catalog,
    ConnectionStatus,
}

/// Whether a message holds the answer that is waited for.
pub open spec fn holds(m: Message, expected: Expected) -> bool {
    match expected {
        Expected::Spec => m.spec is Some,
        Expected::Catalog => m.catalog is Some,
        Expected::ConnectionStatus => m.connection_status is Some,
    }
}

/// The answer of the connector: the first message that it sent, apart
/// from its log, which must hold what is waited for. It is a failure where
/// it sent none, or another.
pub fn get_airbyte_response(head: Option<Message>, expected: Expected) -> (r: Result<
    Message,
    IoError,
>)
    ensures
        match r {
            Ok(m) => head == Some(m) && holds(m, expected),
            Err(e) => e.kind == IoErrorKind::Other && (match head {
                None => e.message@ == "Could not find message in stream"@,
                Some(m) => !holds(m, expected) && e.message@
                    == "Could not find message matching condition"@,
            }),
        },
{
    match head {
        None => Err(create_custom_error("Could not find message in stream")),
        Some(m) => {
            let found = match expected {
                Expected::Spec => m.spec.is_some(),
                Expected::Catalog => m.catalog.is_some(),
                Expected::ConnectionStatus => m.connection_status.is_some(),
            };
            if found {
                Ok(m)
            } else {
                Err(create_custom_error("Could not find message matching condition"))
            }
        },
    }
}

/// What the adaptor does with one line of the connector's output.
pub ghost enum LineOutcome {
    /// The message goes on to be adapted.
    Forward(Message),
    /// The line goes to the adaptor's own log, at this level and with these words.
    Logged(TraceLevel, Seq<char>),
    /// The message breaks the rules of the protocol.
    Invalid,
}

/// What the adaptor does with one line of the connector's output, given
/// the message read from it, or, where none could be read, the words that
/// say so. A line that is no message is logged for debugging. A message
/// that breaks the rules breaks off the reading. A message that holds a
/// log line is logged at the level of that line. Any other message goes on.
pub open spec fn line_outcome(parsed: Result<Message, String>) -> LineOutcome {
    match parsed {
        Err(text) => LineOutcome::Logged(TraceLevel::Debug, text@),
        Ok(m) => if message_failures(m).len() > 0 {
            LineOutcome::Invalid
        } else {
            match m.log {
                Some(l) => LineOutcome::Logged(trace_level(l.level), l.message@),
                None => LineOutcome::Forward(m),
            }
        },
    }
}

/// The place of the first of the first `n` lines that breaks the rules; `n`
/// if none does.
pub open spec fn first_invalid(parsed: Seq<Result<Message, String>>, n: int) -> int
    decreases n,
{
    if n <= 0 || n > parsed.len() {
        0
    } else if first_invalid(parsed, n - 1) < n - 1 {
        first_invalid(parsed, n - 1)
    } else if line_outcome(parsed[n - 1]) is Invalid {
        n - 1
    } else {
        n
    }
}

/// The messages among the first `n` lines that go on.
pub open spec fn forwarded_upto(parsed: Seq<Result<Message, String>>, n: int) -> Seq<Message>
    decreases n,
{
    if n <= 0 || n > parsed.len() {
        Seq::empty()
    } else {
        match line_outcome(parsed[n - 1]) {
            LineOutcome::Forward(m) => forwarded_upto(parsed, n - 1).push(m),
            _ => forwarded_upto(parsed, n - 1),
        }
    }
}

/// What is logged of the first `n` lines.
pub open spec fn logged_upto(parsed: Seq<Result<Message, String>>, n: int) -> Seq<
    (TraceLevel, Seq<char>),
>
    decreases n,
{
    if n <= 0 || n > parsed.len() {
        Seq::empty()
    } else {
        match line_outcome(parsed[n - 1]) {
            LineOutcome::Logged(level, text) => logged_upto(parsed, n - 1).push((level, text)),
            _ => logged_upto(parsed, n - 1),
        }
    }
}

/// What became of the lines of a connector's output.
#[derive(Debug, PartialEq, Eq)]
pub struct AirbyteResponses {
    /// The messages that go on to be adapted, in their order.
    pub forwarded: Vec<Message>,
    /// What goes to the adaptor's own log, in its order.
    pub logged: Vec<(TraceLevel, String)>,
    /// Why the reading broke off, if it did.
    pub failure: Option<IoError>,
}

/// The levels and texts of a run of log lines.
pub open spec fn logged_view(v: Seq<(TraceLevel, String)>) -> Seq<(TraceLevel, Seq<char>)> {
    Seq::new(v.len(), |i: int| (v[i].0, v[i].1@))
}

/// Sorts the lines of a connector's output, each given as the message read
/// from it or as the words that say why none could be read, into the
/// messages that go on and what is logged, up to the first message that
/// breaks the rules.
pub fn stream_airbyte_responses(parsed: Vec<Result<Message, String>>) -> (r: AirbyteResponses)
    ensures
        r.forwarded@ == forwarded_upto(parsed@, first_invalid(parsed@, parsed@.len() as int)),
        logged_view(r.logged@) == logged_upto(
            parsed@,
            first_invalid(parsed@, parsed@.len() as int),
        ),
        r.failure is Some <==> first_invalid(parsed@, parsed@.len() as int) < parsed@.len(),
        r.failure matches Some(e) ==> e.kind == IoErrorKind::Other,
{
    let ghost given = parsed@;
    let mut lines = parsed;
    let n: usize = lines.len();
    let mut forwarded: Vec<Message> = Vec::new();
    let mut logged: Vec<(TraceLevel, String)> = Vec::new();
    let mut i: usize = 0;
    assert(logged_view(logged@) =~= logged_upto(given, 0));
    while i < n
        invariant
            given == parsed@,
            n == given.len(),
            lines@.len() == n,
            i <= n,
            forall|j: int| i <= j < n ==> lines@[j] == given[j],
            first_invalid(given, i as int) == i,
            forwarded@ == forwarded_upto(given, i as int),
            logged_view(logged@) == logged_upto(given, i as int),
        decreases n - i,
    {
        let mut line: Result<Message, String> = Err(String::new());
        std::mem::swap(&mut lines[i], &mut line);
        assert(line == given[i as int]);
        let ghost before = logged_view(logged@);
        match line {
            Err(text) => {
                let ghost tv = text@;
                logged.push((TraceLevel::Debug, text));
                assert(logged_view(logged@) =~= before.push((TraceLevel::Debug, tv)));
            },
            Ok(m) => {
                if m.validate().is_err() {
                    proof {
                        assert(line_outcome(given[i as int]) is Invalid);
                        assert(first_invalid(given, i + 1) == i);
                        lemma_first_invalid_stays(given, i + 1, n as int);
                    }
                    return AirbyteResponses {
                        forwarded,
                        logged,
                        failure: Some(create_custom_error("error in validating message")),
                    };
                }
                if m.log.is_some() {
                    let (level, text) = m.log.as_ref().unwrap().log();
                    let ghost tv = text@;
                    logged.push((level, crate::text::owned(text)));
                    assert(logged_view(logged@) =~= before.push((level, tv)));
                } else {
                    forwarded.push(m);
                }
            },
        }
        i = i + 1;
    }
    AirbyteResponses { forwarded, logged, failure: None }
}

/// The first line that breaks the rules is the same however many lines follow.
pub proof fn lemma_first_invalid_stays(parsed: Seq<Result<Message, String>>, n: int, m: int)
    requires
        0 <= n <= m <= parsed.len(),
        first_invalid(parsed, n) < n,
    ensures
        first_invalid(parsed, m) == first_invalid(parsed, n),
    decreases m - n,
{
    if n < m {
        lemma_first_invalid_stays(parsed, n, m - 1);
    }
}

/// What the adaptor does with one piece of what it has for the runtime.
pub ghost enum CopyStep {
    /// The bytes are written to the runtime.
    Write(Seq<u8>),
    /// Nothing is written, and the copying goes on.
    Skip,
    /// The copying ends with the failure.
    Fail,
}

/// What the adaptor does with one piece of what it has for the runtime:
/// bytes are written; the failure of a stream that was empty is passed
/// over, as the connector's own failure says more; any other failure ends
/// the copying.
pub open spec fn copy_step(item: Result<Vec<u8>, Error>) -> CopyStep {
    match item {
        Ok(bytes) => CopyStep::Write(bytes@),
        Err(Error::EmptyStream) => CopyStep::Skip,
        Err(_) => CopyStep::Fail,
    }
}

/// What is written to the runtime of the first `n` pieces.
pub open spec fn written_upto(items: Seq<Result<Vec<u8>, Error>>, n: int) -> Seq<u8>
    decreases n,
{
    if n <= 0 || n > items.len() {
        Seq::empty()
    } else {
        match copy_step(items[n - 1]) {
            CopyStep::Write(bytes) => written_upto(items, n - 1) + bytes,
            _ => written_upto(items, n - 1),
        }
    }
}

/// The place of the first of the first `n` pieces that ends the copying;
/// `n` if none does.
pub open spec fn first_failure(items: Seq<Result<Vec<u8>, Error>>, n: int) -> int
    decreases n,
{
    if n <= 0 || n > items.len() {
        0
    } else if first_failure(items, n - 1) < n - 1 {
        first_failure(items, n - 1)
    } else if copy_step(items[n - 1]) is Fail {
        n - 1
    } else {
        n
    }
}

/// The first piece that ends the copying is the same however many pieces follow.
pub proof fn lemma_first_failure_stays(items: Seq<Result<Vec<u8>, Error>>, n: int, m: int)
    requires
        0 <= n <= m <= items.len(),
        first_failure(items, n) < n,
    ensures
        first_failure(items, m) == first_failure(items, n),
    decreases m - n,
{
    if n < m {
        lemma_first_failure_stays(items, n, m - 1);
    }
}

/// Copies to the runtime what the adaptor has for it, piece by piece: the
/// bytes written, up to the first failure that ends the copying, and that
/// failure. Where there is none, everything was written, and the runtime
/// can be told that the answers are finished.
pub fn streaming_all(items: Vec<Result<Vec<u8>, Error>>) -> (r: (Vec<u8>, Option<Error>))
    ensures
        r.0@ == written_upto(items@, first_failure(items@, items@.len() as int)),
        match r.1 {
            Some(e) => first_failure(items@, items@.len() as int) < items@.len() && items@[first_failure(
                items@,
                items@.len() as int,
            )] == Err::<Vec<u8>, Error>(e),
            None => first_failure(items@, items@.len() as int) == items@.len(),
        },
{
    let ghost given = items@;
    let mut rest = items;
    let n: usize = rest.len();
    let mut out: Vec<u8> = Vec::new();
    let mut i: usize = 0;
    while i < n
        invariant
            given == items@,
            n == given.len(),
            rest@.len() == n,
            i <= n,
            forall|j: int| i <= j < n ==> rest@[j] == given[j],
            first_failure(given, i as int) == i,
            out@ == written_upto(given, i as int),
        decreases n - i,
    {
        let mut item: Result<Vec<u8>, Error> = Err(Error::EmptyStream);
        std::mem::swap(&mut rest[i], &mut item);
        assert(item == given[i as int]);
        match item {
            Ok(bytes) => {
                let ghost before = out@;
                let mut j: usize = 0;
                while j < bytes.len()
                    invariant
                        j <= bytes@.len(),
                        out@ == before + bytes@.take(j as int),
                    decreases bytes@.len() - j,
                {
                    out.push(bytes[j]);
                    assert(out@ =~= before + bytes@.take(j + 1));
                    j = j + 1;
                }
                assert(bytes@.take(bytes@.len() as int) =~= bytes@);
            },
            Err(Error::EmptyStream) => {},
            Err(e) => {
                proof {
                    assert(copy_step(given[i as int]) is Fail);
                    assert(first_failure(given, i + 1) == i);
                    lemma_first_failure_stays(given, i + 1, n as int);
                }
                return (out, Some(e));
            },
        }
        i = i + 1;
    }
    (out, None)
}

} // verus!
