//! A capture of one request and of what came back for it, within a limit of bytes.

use vstd::prelude::*;
use vstd::utf8::*;

use crate::json;
use crate::text;
use crate::text::{joined, parse_unsigned};

verus! {

/// The most bytes that are captured, where nothing else is asked for.
pub const DEFAULT_MAX_BYTES: usize = 8388608;

/// The permissions of the directory that captures are written to.
pub const DIRECTORY_MODE: u32 = 0o700;

/// The permissions of a capture.
pub const FILE_MODE: u32 = 0o600;

/// A frame of the upstream's stream of events.
#[derive(Debug)]
pub struct Frame {
    pub message_type: Option<String>,
    pub event_type: Option<String>,
    pub payload: String,
}

/// A captured event, and its place among the events.
#[derive(Debug)]
pub struct CapturedEvent {
    pub sequence: usize,
    pub message_type: Option<String>,
    pub event_type: Option<String>,
    pub payload: String,
}

/// What is captured.
#[derive(Debug)]
pub struct CaptureDocument {
    pub capture_id: String,
    pub started_at: String,
    pub finished_at: Option<String>,
    pub model: String,
    pub stream: bool,
    pub credential_id: Option<u64>,
    pub request_body: String,
    pub upstream_events: Vec<CapturedEvent>,
    pub outcome: Option<String>,
    pub error: Option<String>,
    pub truncated: bool,
    pub captured_bytes: usize,
}

/// A capture that is under way; without a directory to write to, it captures nothing more.
#[derive(Debug)]
pub struct CaptureSession {
    directory: Option<String>,
    max_bytes: usize,
    document: CaptureDocument,
}

/// A captured event, over sequences.
pub struct CapturedModel {
    pub sequence: nat,
    pub message_type: Option<Seq<char>>,
    pub event_type: Option<Seq<char>>,
    pub payload: Seq<char>,
}

/// What is captured, over sequences.
pub struct DocumentModel {
    pub capture_id: Seq<char>,
    pub started_at: Seq<char>,
    pub finished_at: Option<Seq<char>>,
    pub model: Seq<char>,
    pub stream: bool,
    pub credential_id: Option<u64>,
    pub request_body: Seq<char>,
    pub upstream_events: Seq<CapturedModel>,
    pub outcome: Option<Seq<char>>,
    pub error: Option<Seq<char>>,
    pub truncated: bool,
    pub captured_bytes: nat,
}

/// A capture that is under way, over sequences.
pub struct SessionModel {
    pub directory: Option<Seq<char>>,
    pub max_bytes: nat,
    pub document: DocumentModel,
}

impl View for CapturedEvent {
    type V = CapturedModel;

    open spec fn view(&self) -> CapturedModel {
        CapturedModel {
            sequence: self.sequence as nat,
            message_type: text::optional_text(self.message_type),
            event_type: text::optional_text(self.event_type),
            payload: self.payload@,
        }
    }
}

/// What a list of captured events holds.
pub open spec fn events_view(events: Seq<CapturedEvent>) -> Seq<CapturedModel> {
    events.map_values(|event: CapturedEvent| event@)
}

impl View for CaptureDocument {
    type V = DocumentModel;

    open spec fn view(&self) -> DocumentModel {
        DocumentModel {
            capture_id: self.capture_id@,
            started_at: self.started_at@,
            finished_at: text::optional_text(self.finished_at),
            model: self.model@,
            stream: self.stream,
            credential_id: self.credential_id,
            request_body: self.request_body@,
            upstream_events: events_view(self.upstream_events@),
            outcome: text::optional_text(self.outcome),
            error: text::optional_text(self.error),
            truncated: self.truncated,
            captured_bytes: self.captured_bytes as nat,
        }
    }
}

impl View for CaptureSession {
    type V = SessionModel;

    closed spec fn view(&self) -> SessionModel {
        SessionModel {
            directory: text::optional_text(self.directory),
            max_bytes: self.max_bytes as nat,
            document: self.document@,
        }
    }
}

/// The bytes that a text takes in UTF-8.
pub open spec fn byte_len(text: Seq<char>) -> nat {
    encode_utf8(text).len()
}

/// The longest beginning of a text that takes no more than `limit` bytes.
pub open spec fn cut(text: Seq<char>, limit: nat) -> Seq<char>
    decreases text.len(),
{
    if byte_len(text) <= limit || text.len() == 0 {
        text
    } else {
        cut(text.drop_last(), limit)
    }
}

/// The encoding of a text is that of its first part and that of the rest.
proof fn lemma_encode_concat(a: Seq<char>, b: Seq<char>)
    ensures
        encode_utf8(a + b) == encode_utf8(a) + encode_utf8(b),
    decreases a.len(),
{
    if a.len() == 0 {
        assert(a + b == b);
        assert(encode_utf8(a) + encode_utf8(b) =~= encode_utf8(b));
    } else {
        lemma_encode_concat(a.drop_first(), b);
        assert((a + b).drop_first() == a.drop_first() + b);
        assert((a + b)[0] == a[0]);
        assert(encode_utf8(a + b) =~= encode_utf8(a) + encode_utf8(b));
    }
}

/// A part of a text takes no more bytes than a longer part.
proof fn lemma_parts(text: Seq<char>, m: int, n: int)
    requires
        0 <= m <= n <= text.len(),
    ensures
        byte_len(text.take(m)) <= byte_len(text.take(n)) <= byte_len(text),
{
    assert(text.take(n) == text.take(m) + text.subrange(m, n));
    lemma_encode_concat(text.take(m), text.subrange(m, n));
    assert(text == text.take(n) + text.skip(n));
    lemma_encode_concat(text.take(n), text.skip(n));
}

/// A character ends where the encoding of a part of the text does.
proof fn lemma_boundary(text: Seq<char>, n: int)
    requires
        0 <= n <= text.len(),
    ensures
        valid_utf8(encode_utf8(text)),
        is_char_boundary(encode_utf8(text), byte_len(text.take(n)) as int),
    decreases text.len(),
{
    encode_utf8_valid_utf8(text);
    if n == 0 {
        assert(text.take(n) == Seq::<char>::empty());
        assert(byte_len(text.take(n)) == 0);
    } else {
        let rest = text.drop_first();
        encode_utf8_first_scalar(text);
        assert(pop_first_scalar(encode_utf8(text)) =~= encode_utf8(rest));
        lemma_boundary(rest, n - 1);
        assert(text.take(n).drop_first() == rest.take(n - 1));
        assert(text.take(n)[0] == text[0]);
        lemma_parts(text, n, n);
    }
}

/// The longest beginning within a limit is known by what it is.
proof fn lemma_cut(text: Seq<char>, limit: nat, n: int)
    requires
        0 <= n <= text.len(),
        byte_len(text.take(n)) <= limit,
        n < text.len() ==> byte_len(text.take(n + 1)) > limit,
    ensures
        cut(text, limit) == text.take(n),
    decreases text.len(),
{
    if n == text.len() {
        assert(text.take(n) == text);
    } else {
        lemma_parts(text, n + 1, n + 1);
        let front = text.drop_last();
        assert(front.take(n) == text.take(n));
        if n < front.len() {
            assert(front.take(n + 1) == text.take(n + 1));
        }
        lemma_cut(front, limit, n);
    }
}

/// What is cut off a text leaves a beginning of it that keeps within the limit, and the
/// next character would not.
pub proof fn law_cut_is_longest(text: Seq<char>, limit: nat)
    ensures
        cut(text, limit).len() <= text.len(),
        cut(text, limit) == text.take(cut(text, limit).len() as int),
        byte_len(cut(text, limit)) <= limit,
        cut(text, limit).len() < text.len() ==> byte_len(
            text.take(cut(text, limit).len() as int + 1),
        ) > limit,
    decreases text.len(),
{
    if byte_len(text) <= limit || text.len() == 0 {
        assert(text.take(text.len() as int) == text);
    } else {
        let front = text.drop_last();
        law_cut_is_longest(front, limit);
        let n = cut(front, limit).len() as int;
        assert(front.take(n) == text.take(n));
        if n < front.len() {
            assert(front.take(n + 1) == text.take(n + 1));
        } else {
            assert(text.take(n + 1) == text);
        }
    }
}

/// The last end of a character in a text that is no further than `requested` bytes.
pub fn floor_char_boundary(value: &str, requested: usize) -> (index: usize)
    ensures
        index <= requested,
        is_char_boundary(encode_utf8(value@), index as int),
        index == byte_len(cut(value@, requested as nat)),
{
    let ghost bytes = encode_utf8(value@);
    proof {
        encode_utf8_valid_utf8(value@);
        is_char_boundary_start_end_of_seq(bytes);
    }
    let length: usize = value.as_bytes().len();
    let mut index: usize = if requested < length {
        requested
    } else {
        length
    };
    while index > 0 && !value.is_char_boundary(index)
        invariant
            index <= requested,
            index <= bytes.len(),
            bytes == encode_utf8(value@),
            valid_utf8(bytes),
            forall|j: int|
                index < j <= requested && j <= bytes.len() ==> !is_char_boundary(bytes, j),
        decreases index,
    {
        index -= 1;
    }
    proof {
        is_char_boundary_start_end_of_seq(bytes);
        assert(is_char_boundary(bytes, index as int));
        lemma_cut_at(value@, requested as nat, index as int);
    }
    index
}

/// The last end of a character within a limit is where the longest beginning ends.
proof fn lemma_cut_at(text: Seq<char>, limit: nat, index: int)
    requires
        0 <= index <= limit,
        index <= encode_utf8(text).len(),
        is_char_boundary(encode_utf8(text), index),
        forall|j: int|
            index < j <= limit && j <= encode_utf8(text).len() ==> !is_char_boundary(
                encode_utf8(text),
                j,
            ),
    ensures
        index == byte_len(cut(text, limit)),
        cut(text, limit) == decode_utf8(encode_utf8(text).subrange(0, index)),
{
    let bytes = encode_utf8(text);
    encode_utf8_valid_utf8(text);
    valid_utf8_split(bytes, index);
    decode_utf8_split(bytes, index);
    encode_utf8_decode_utf8(text);
    let part = decode_utf8(bytes.subrange(0, index));
    let rest = decode_utf8(bytes.subrange(index, bytes.len() as int));
    decode_utf8_encode_utf8(bytes.subrange(0, index));
    assert(text == part + rest);
    let n = part.len() as int;
    assert(text.take(n) == part);
    if n < text.len() {
        lemma_boundary(text, n + 1);
        lemma_parts(text, n + 1, n + 1);
        assert(text.take(n + 1) == part + seq![rest[0]]);
        lemma_encode_concat(part, seq![rest[0]]);
        encode_utf8_first_scalar(seq![rest[0]]);
        assert(byte_len(text.take(n + 1)) > index);
    }
    lemma_cut(text, limit, n);
}

/// The longest beginning of a text that takes no more than `limit` bytes.
fn cut_text(value: &str, limit: usize) -> (part: String)
    ensures
        part@ == cut(value@, limit as nat),
{
    let index: usize = floor_char_boundary(value, limit);
    let (part, _rest) = value.split_at(index);
    proof {
        encode_utf8_decode_utf8(part@);
        encode_utf8_valid_utf8(value@);
        law_cut_is_longest(value@, limit as nat);
        let text = value@;
        let shown = cut(text, limit as nat);
        let n = shown.len() as int;
        assert(text == text.take(n) + text.skip(n));
        lemma_encode_concat(text.take(n), text.skip(n));
        assert(encode_utf8(text).subrange(0, index as int) =~= encode_utf8(shown));
        encode_utf8_decode_utf8(shown);
    }
    part.to_owned()
}

/// The most bytes that are captured: as many as a text asks for, or the default where the
/// text is no number or asks for none.
pub open spec fn limit_in(setting: Option<Seq<char>>) -> nat {
    match setting {
        Some(setting) => match text::unsigned_number(setting, usize::MAX as nat) {
            Some(limit) => if limit > 0 {
                limit
            } else {
                DEFAULT_MAX_BYTES as nat
            },
            None => DEFAULT_MAX_BYTES as nat,
        },
        None => DEFAULT_MAX_BYTES as nat,
    }
}

/// Reads the most bytes that are captured.
pub fn capture_limit(setting: Option<&str>) -> (limit: usize)
    ensures
        limit == limit_in(json::borrowed_text(setting)),
{
    match setting {
        Some(setting) => match parse_unsigned(setting, usize::MAX as u64) {
            Some(limit) => if limit > 0 {
                limit as usize
            } else {
                DEFAULT_MAX_BYTES
            },
            None => DEFAULT_MAX_BYTES,
        },
        None => DEFAULT_MAX_BYTES,
    }
}

/// Whether a character is a lowercase hexadecimal digit.
pub open spec fn hexadecimal(c: char) -> bool {
    '0' <= c <= '9' || 'a' <= c <= 'f'
}

/// Whether a text is a random UUID: 32 hexadecimal digits in groups of 8, 4, 4, 4 and 12
/// with hyphens between them, the version 4 and the variant of RFC 4122.
pub open spec fn random_uuid(id: Seq<char>) -> bool {
    &&& id.len() == 36
    &&& forall|i: int|
        0 <= i < 36 ==> if i == 8 || i == 13 || i == 18 || i == 23 {
            #[trigger] id[i] == '-'
        } else {
            hexadecimal(id[i])
        }
    &&& id[14] == '4'
    &&& id[19] == '8' || id[19] == '9' || id[19] == 'a' || id[19] == 'b'
}

/// Calls `uuid::Uuid::new_v4` and shows the result with its `Display`, in the hyphenated
/// form with lowercase digits. Which UUID it is is left to chance.
#[verifier::external_body]
fn new_capture_id() -> (id: String)
    ensures
        random_uuid(id@),
{
    uuid::Uuid::new_v4().to_string()
}

/// Whether the two characters of a text from a place on are digits that stand for a number
/// within bounds.
pub open spec fn two_digits(text: Seq<char>, at: int, least: nat, most: nat) -> bool {
    &&& text::digit(text[at])
    &&& text::digit(text[at + 1])
    &&& least <= text::digit_value(text[at]) * 10 + text::digit_value(text[at + 1]) <= most
}

/// Whether a text is a day: the year with at least four digits, and a plus sign before more
/// than four; then month and day with two digits each, with hyphens between them.
pub open spec fn dated(day: Seq<char>) -> bool {
    let n = day.len() as int;
    &&& n >= 10
    &&& day[n - 6] == '-'
    &&& two_digits(day, n - 5, 1, 12)
    &&& day[n - 3] == '-'
    &&& two_digits(day, n - 2, 1, 31)
    &&& forall|i: int|
        0 <= i < n - 6 ==> text::digit(#[trigger] day[i]) || (i == 0 && n > 10 && day[i] == '+')
}

/// Whether a text is a time of the day: hours, minutes and seconds with two digits each and
/// colons between them, and nothing more or a point and three, six or nine digits.
pub open spec fn clocked(time: Seq<char>) -> bool {
    let n = time.len();
    &&& n == 8 || n == 12 || n == 15 || n == 18
    &&& two_digits(time, 0, 0, 23)
    &&& time[2] == ':'
    &&& two_digits(time, 3, 0, 59)
    &&& time[5] == ':'
    &&& two_digits(time, 6, 0, 59)
    &&& n > 8 ==> time[8] == '.'
    &&& forall|i: int| 9 <= i < n ==> text::digit(#[trigger] time[i])
}

/// Whether a text is a time in UTC as RFC 3339 writes it: a day, a `T`, a time of the day,
/// and the offset of no hours and no minutes.
pub open spec fn rfc3339_utc(time: Seq<char>) -> bool {
    exists|day: Seq<char>, clock: Seq<char>|
        dated(day) && clocked(clock) && time == #[trigger] (day + seq!['T'] + clock) + "+00:00"@
}

/// Calls `chrono::Utc::now` and writes the result with `to_rfc3339`, as a time in UTC. The
/// clock is not before 1970. Which time it is is not claimed.
#[verifier::external_body]
fn now_rfc3339() -> (time: String)
    ensures
        rfc3339_utc(time@),
{
    chrono::Utc::now().to_rfc3339()
}

/// Calls `chrono::Utc::now` and writes the day with `format`, as year, month and day, the
/// latter two padded to two digits. The clock is not before 1970. Which day it is is not
/// claimed: it is the date.
#[verifier::external_body]
fn today() -> (day: String)
    ensures
        dated(day@),
{
    chrono::Utc::now().format("%Y-%m-%d").to_string()
}

/// A capture that has begun. A request that is longer than the limit is cut, and uses up
/// the limit.
pub open spec fn opened(
    capture_id: Seq<char>,
    started_at: Seq<char>,
    directory: Option<Seq<char>>,
    max_bytes: nat,
    request_body: Seq<char>,
    model: Seq<char>,
    stream: bool,
) -> SessionModel {
    let truncated = byte_len(request_body) > max_bytes;
    SessionModel {
        directory,
        max_bytes,
        document: DocumentModel {
            capture_id,
            started_at,
            finished_at: None,
            model,
            stream,
            credential_id: None,
            request_body: if truncated {
                cut(request_body, max_bytes)
            } else {
                request_body
            },
            upstream_events: Seq::empty(),
            outcome: None,
            error: None,
            truncated,
            captured_bytes: if truncated {
                max_bytes
            } else {
                byte_len(request_body)
            },
        },
    }
}

/// A capture with one more event. One that is disabled or was cut captures no more; an
/// event for which there is no room is cut.
pub open spec fn recorded(
    session: SessionModel,
    message_type: Option<Seq<char>>,
    event_type: Option<Seq<char>>,
    payload: Seq<char>,
) -> SessionModel {
    if session.directory is None || session.document.truncated {
        session
    } else {
        let document = session.document;
        let room = (session.max_bytes - document.captured_bytes) as nat;
        let fits = byte_len(payload) <= room;
        let shown = if fits {
            payload
        } else {
            cut(payload, room)
        };
        SessionModel {
            document: DocumentModel {
                upstream_events: document.upstream_events.push(
                    CapturedModel {
                        sequence: document.upstream_events.len(),
                        message_type,
                        event_type,
                        payload: shown,
                    },
                ),
                captured_bytes: document.captured_bytes + byte_len(shown),
                truncated: !fits,
                ..document
            },
            ..session
        }
    }
}

/// The bytes in the payloads of a list of events.
pub open spec fn payload_bytes(events: Seq<CapturedModel>) -> nat
    decreases events.len(),
{
    if events.len() == 0 {
        0
    } else {
        payload_bytes(events.drop_last()) + byte_len(events.last().payload)
    }
}

/// Whether a capture keeps within its limit, counts no less than it holds, and numbers its
/// events in order.
pub open spec fn within_limit(session: SessionModel) -> bool {
    &&& byte_len(session.document.request_body) + payload_bytes(session.document.upstream_events)
        <= session.document.captured_bytes <= session.max_bytes
    &&& !session.document.truncated ==> byte_len(session.document.request_body) + payload_bytes(
        session.document.upstream_events,
    ) == session.document.captured_bytes
    &&& forall|i: int|
        0 <= i < session.document.upstream_events.len() ==> (
        #[trigger] session.document.upstream_events[i]).sequence == i
}

/// A capture keeps within its limit from its beginning.
pub proof fn law_opened_within_limit(
    capture_id: Seq<char>,
    started_at: Seq<char>,
    directory: Option<Seq<char>>,
    max_bytes: nat,
    request_body: Seq<char>,
    model: Seq<char>,
    stream: bool,
)
    ensures
        within_limit(
            opened(capture_id, started_at, directory, max_bytes, request_body, model, stream),
        ),
{
    law_cut_is_longest(request_body, max_bytes);
}

/// A capture keeps within its limit whatever is recorded.
pub proof fn law_recorded_within_limit(
    session: SessionModel,
    message_type: Option<Seq<char>>,
    event_type: Option<Seq<char>>,
    payload: Seq<char>,
)
    requires
        within_limit(session),
    ensures
        within_limit(recorded(session, message_type, event_type, payload)),
{
    if session.directory is Some && !session.document.truncated {
        let room = (session.max_bytes - session.document.captured_bytes) as nat;
        law_cut_is_longest(payload, room);
        let before = session.document.upstream_events;
        let after = recorded(
            session,
            message_type,
            event_type,
            payload,
        ).document.upstream_events;
        assert(after.drop_last() == before);
        assert forall|i: int| 0 <= i < after.len() implies (#[trigger] after[i]).sequence == i by {
            if i < before.len() {
                assert(after[i] == before[i]);
            }
        }
    }
}

/// Whether a capture counts the bytes that it holds, no more and no less.
pub open spec fn counts_what_it_holds(session: SessionModel) -> bool {
    session.document.captured_bytes == byte_len(session.document.request_body) + payload_bytes(
        session.document.upstream_events,
    )
}

/// An event as it comes in: the type of its message, its own type, its payload.
pub struct PayloadModel {
    pub message_type: Option<Seq<char>>,
    pub event_type: Option<Seq<char>>,
    pub payload: Seq<char>,
}

/// A capture with a row of events more.
pub open spec fn recorded_all(session: SessionModel, events: Seq<PayloadModel>) -> SessionModel
    decreases events.len(),
{
    if events.len() == 0 {
        session
    } else {
        let event = events.last();
        recorded(
            recorded_all(session, events.drop_last()),
            event.message_type,
            event.event_type,
            event.payload,
        )
    }
}

/// A capture that counts what it holds does so whatever is recorded, be the event cut or
/// not.
pub proof fn law_events_are_counted(
    session: SessionModel,
    message_type: Option<Seq<char>>,
    event_type: Option<Seq<char>>,
    payload: Seq<char>,
)
    requires
        counts_what_it_holds(session),
    ensures
        counts_what_it_holds(recorded(session, message_type, event_type, payload)),
{
    let after = recorded(session, message_type, event_type, payload).document.upstream_events;
    if session.directory is Some && !session.document.truncated {
        assert(after.drop_last() == session.document.upstream_events);
    }
}

/// A capture whose request was not cut counts what it holds, whatever is recorded.
pub proof fn law_whole_requests_are_counted(
    capture_id: Seq<char>,
    started_at: Seq<char>,
    directory: Option<Seq<char>>,
    max_bytes: nat,
    request_body: Seq<char>,
    model: Seq<char>,
    stream: bool,
    events: Seq<PayloadModel>,
)
    requires
        byte_len(request_body) <= max_bytes,
    ensures
        counts_what_it_holds(
            recorded_all(
                opened(capture_id, started_at, directory, max_bytes, request_body, model, stream),
                events,
            ),
        ),
    decreases events.len(),
{
    if events.len() > 0 {
        let front = events.drop_last();
        let event = events.last();
        law_whole_requests_are_counted(
            capture_id,
            started_at,
            directory,
            max_bytes,
            request_body,
            model,
            stream,
            front,
        );
        law_events_are_counted(
            recorded_all(
                opened(capture_id, started_at, directory, max_bytes, request_body, model, stream),
                front,
            ),
            event.message_type,
            event.event_type,
            event.payload,
        );
    }
}

/// A capture that was cut, and one without a directory, stays as it is.
pub proof fn law_cut_captures_are_closed(
    session: SessionModel,
    message_type: Option<Seq<char>>,
    event_type: Option<Seq<char>>,
    payload: Seq<char>,
)
    requires
        session.document.truncated || session.directory is None,
    ensures
        recorded(session, message_type, event_type, payload) == session,
{
}

/// A capture that has ended.
pub open spec fn finished(
    document: DocumentModel,
    finished_at: Seq<char>,
    outcome: Seq<char>,
    error: Option<Seq<char>>,
) -> DocumentModel {
    DocumentModel { finished_at: Some(finished_at), outcome: Some(outcome), error, ..document }
}

impl CaptureSession {
    /// Whether the capture keeps within its limit.
    pub open spec fn valid(&self) -> bool {
        within_limit(self@)
    }

    /// Begins a capture with a name and a time of its own.
    pub fn opened_at(
        capture_id: String,
        started_at: String,
        directory: Option<String>,
        max_bytes: usize,
        request_body: &str,
        model: &str,
        stream: bool,
    ) -> (session: CaptureSession)
        ensures
            session.valid(),
            session@ == opened(
                capture_id@,
                started_at@,
                text::optional_text(directory),
                max_bytes as nat,
                request_body@,
                model@,
                stream,
            ),
    {
        proof {
            law_opened_within_limit(
                capture_id@,
                started_at@,
                text::optional_text(directory),
                max_bytes as nat,
                request_body@,
                model@,
                stream,
            );
        }
        let length: usize = request_body.as_bytes().len();
        let truncated: bool = length > max_bytes;
        let upstream_events: Vec<CapturedEvent> = Vec::new();
        proof {
            assert(events_view(upstream_events@) =~= Seq::<CapturedModel>::empty());
        }
        CaptureSession {
            directory,
            max_bytes,
            document: CaptureDocument {
                capture_id,
                started_at,
                finished_at: None,
                model: model.to_owned(),
                stream,
                credential_id: None,
                request_body: if truncated {
                    cut_text(request_body, max_bytes)
                } else {
                    request_body.to_owned()
                },
                upstream_events,
                outcome: None,
                error: None,
                truncated,
                captured_bytes: if truncated {
                    max_bytes
                } else {
                    length
                },
            },
        }
    }

    /// Begins a capture within a limit, now and under a new name.
    pub fn with_config(
        directory: Option<String>,
        max_bytes: usize,
        request_body: &str,
        model: &str,
        stream: bool,
    ) -> (session: CaptureSession)
        ensures
            session.valid(),
            random_uuid(session@.document.capture_id),
            rfc3339_utc(session@.document.started_at),
            session@ == opened(
                session@.document.capture_id,
                session@.document.started_at,
                text::optional_text(directory),
                max_bytes as nat,
                request_body@,
                model@,
                stream,
            ),
    {
        let capture_id: String = new_capture_id();
        let started_at: String = now_rfc3339();
        Self::opened_at(
            capture_id,
            started_at,
            directory,
            max_bytes,
            request_body,
            model,
            stream,
        )
    }

    /// Begins a capture as the settings ask for it, now and under a new name.
    pub fn new(
        directory: Option<String>,
        max_bytes: Option<&str>,
        request_body: &str,
        model: &str,
        stream: bool,
    ) -> (session: CaptureSession)
        ensures
            session.valid(),
            random_uuid(session@.document.capture_id),
            rfc3339_utc(session@.document.started_at),
            session@ == opened(
                session@.document.capture_id,
                session@.document.started_at,
                text::optional_text(directory),
                limit_in(json::borrowed_text(max_bytes)),
                request_body@,
                model@,
                stream,
            ),
    {
        Self::with_config(directory, capture_limit(max_bytes), request_body, model, stream)
    }

    /// Whether there is a directory to write to.
    pub fn is_enabled(&self) -> (enabled: bool)
        ensures
            enabled == (self@.directory is Some),
    {
        self.directory.is_some()
    }

    /// The name of the capture.
    pub fn capture_id(&self) -> (id: &str)
        ensures
            id@ == self@.document.capture_id,
    {
        self.document.capture_id.as_str()
    }

    /// What has been captured so far.
    pub fn document(&self) -> (document: &CaptureDocument)
        ensures
            document@ == self@.document,
    {
        &self.document
    }

    /// Notes the credential that the request was sent with.
    pub fn set_credential_id(&mut self, credential_id: u64)
        requires
            old(self).valid(),
        ensures
            final(self).valid(),
            final(self)@ == (SessionModel {
                document: DocumentModel {
                    credential_id: Some(credential_id),
                    ..old(self)@.document
                },
                ..old(self)@
            }),
    {
        self.document.credential_id = Some(credential_id);
    }

    /// Captures a frame.
    pub fn record_frame(&mut self, frame: &Frame)
        requires
            old(self).valid(),
        ensures
            final(self).valid(),
            final(self)@ == recorded(
                old(self)@,
                text::optional_text(frame.message_type),
                text::optional_text(frame.event_type),
                frame.payload@,
            ),
    {
        let message_type: Option<String> = match &frame.message_type {
            Some(name) => Some(name.clone()),
            None => None,
        };
        let event_type: Option<String> = match &frame.event_type {
            Some(name) => Some(name.clone()),
            None => None,
        };
        self.record_payload(message_type, event_type, frame.payload.as_str());
    }

    /// Captures an event.
    pub fn record_payload(
        &mut self,
        message_type: Option<String>,
        event_type: Option<String>,
        payload: &str,
    )
        requires
            old(self).valid(),
        ensures
            final(self).valid(),
            final(self)@ == recorded(
                old(self)@,
                text::optional_text(message_type),
                text::optional_text(event_type),
                payload@,
            ),
    {
        proof {
            law_recorded_within_limit(
                self@,
                text::optional_text(message_type),
                text::optional_text(event_type),
                payload@,
            );
        }
        if !self.is_enabled() || self.document.truncated {
            return;
        }
        let ghost before = self@.document.upstream_events;
        let room: usize = self.max_bytes - self.document.captured_bytes;
        let length: usize = payload.as_bytes().len();
        let fits: bool = length <= room;
        let shown: String = if fits {
            payload.to_owned()
        } else {
            cut_text(payload, room)
        };
        let taken: usize = if fits {
            length
        } else {
            floor_char_boundary(payload, room)
        };
        let sequence: usize = self.document.upstream_events.len();
        self.document.upstream_events.push(
            CapturedEvent { sequence, message_type, event_type, payload: shown },
        );
        self.document.captured_bytes = self.document.captured_bytes + taken;
        self.document.truncated = !fits;
        proof {
            assert(self@.document.upstream_events =~= recorded(
                old(self)@,
                text::optional_text(message_type),
                text::optional_text(event_type),
                payload@,
            ).document.upstream_events);
        }
    }

    /// Ends a capture at a given time, and hands out what was captured; a capture without
    /// a directory hands out nothing.
    pub fn finish_at(self, finished_at: String, outcome: &str, error: Option<String>) -> (document:
        Option<CaptureDocument>)
        ensures
            match document {
                Some(document) => self@.directory is Some && document@ == finished(
                    self@.document,
                    finished_at@,
                    outcome@,
                    text::optional_text(error),
                ),
                None => self@.directory is None,
            },
    {
        if self.directory.is_none() {
            return None;
        }
        let mut document: CaptureDocument = self.document;
        document.finished_at = Some(finished_at);
        document.outcome = Some(outcome.to_owned());
        document.error = error;
        Some(document)
    }

    /// Ends a capture, now, and hands out what was captured.
    pub fn finish(self, outcome: &str, error: Option<String>) -> (document: Option<
        CaptureDocument,
    >)
        ensures
            match document {
                Some(document) => {
                    &&& self@.directory is Some
                    &&& document@.finished_at is Some
                    &&& rfc3339_utc(document@.finished_at->0)
                    &&& document@ == finished(
                        self@.document,
                        document@.finished_at->0,
                        outcome@,
                        text::optional_text(error),
                    )
                },
                None => self@.directory is None,
            },
    {
        let finished_at: String = now_rfc3339();
        self.finish_at(finished_at, outcome, error)
    }
}

/// Where a capture is written: a directory for the day and a file in it, and who may use
/// them.
#[derive(Debug)]
pub struct CaptureFile {
    pub directory: String,
    pub directory_mode: u32,
    pub file_name: String,
    pub file_mode: u32,
}

impl CaptureDocument {
    /// Where the capture is written on a given day. Only its owner may use the file and
    /// the directory.
    pub fn file_on(&self, day: String) -> (file: CaptureFile)
        ensures
            file.directory@ == day@,
            file.directory_mode == 0o700,
            file.file_name@ == self@.capture_id + ".json"@,
            file.file_mode == 0o600,
    {
        CaptureFile {
            directory: day,
            directory_mode: DIRECTORY_MODE,
            file_name: joined(self.capture_id.as_str(), ".json"),
            file_mode: FILE_MODE,
        }
    }

    /// Where the capture is written today.
    pub fn file_today(&self) -> (file: CaptureFile)
        ensures
            dated(file.directory@),
            file.directory_mode == 0o700,
            file.file_name@ == self@.capture_id + ".json"@,
            file.file_mode == 0o600,
    {
        let day: String = today();
        self.file_on(day)
    }
}

/// A capture begins with the request and what goes with it, without events and without an
/// end. A request within the limit is kept whole, and counted by its bytes; a longer one is
/// cut to its longest beginning within the limit, marked as cut, and counted as the limit.
pub proof fn law_captures_begin_with_the_request(
    capture_id: Seq<char>,
    started_at: Seq<char>,
    directory: Option<Seq<char>>,
    max_bytes: nat,
    request_body: Seq<char>,
    model: Seq<char>,
    stream: bool,
)
    ensures
        ({
            let session = opened(
                capture_id,
                started_at,
                directory,
                max_bytes,
                request_body,
                model,
                stream,
            );
            let document = session.document;
            let kept = document.request_body;
            &&& session.directory == directory
            &&& session.max_bytes == max_bytes
            &&& document.capture_id == capture_id
            &&& document.started_at == started_at
            &&& document.model == model
            &&& document.stream == stream
            &&& document.finished_at is None
            &&& document.credential_id is None
            &&& document.outcome is None
            &&& document.error is None
            &&& document.upstream_events.len() == 0
            &&& document.truncated <==> encode_utf8(request_body).len() > max_bytes
            &&& !document.truncated ==> kept == request_body && document.captured_bytes
                == encode_utf8(request_body).len()
            &&& document.truncated ==> document.captured_bytes == max_bytes && kept.len()
                < request_body.len() && kept == request_body.take(kept.len() as int)
                && encode_utf8(kept).len() <= max_bytes && encode_utf8(
                request_body.take(kept.len() as int + 1),
            ).len() > max_bytes
        }),
{
    law_cut_is_longest(request_body, max_bytes);
    if byte_len(request_body) > max_bytes {
        let kept = cut(request_body, max_bytes);
        if kept.len() == request_body.len() {
            assert(request_body.take(kept.len() as int) =~= request_body);
        }
    }
}

/// Recording appends one event, with its own types and at the next place, to a capture that
/// is enabled and not cut, whatever the event holds. A payload for which there is room is
/// kept whole; of another its longest beginning is kept, and the capture is cut from there
/// on. The bytes kept are counted, and nothing else changes.
pub proof fn law_recording_appends_the_event(
    session: SessionModel,
    message_type: Option<Seq<char>>,
    event_type: Option<Seq<char>>,
    payload: Seq<char>,
)
    requires
        within_limit(session),
        session.directory is Some,
        !session.document.truncated,
    ensures
        ({
            let after = recorded(session, message_type, event_type, payload);
            let before = session.document;
            let event = after.document.upstream_events.last();
            let room = session.max_bytes - before.captured_bytes;
            let kept = event.payload;
            &&& after.directory == session.directory
            &&& after.max_bytes == session.max_bytes
            &&& after.document == (DocumentModel {
                upstream_events: before.upstream_events.push(event),
                captured_bytes: before.captured_bytes + encode_utf8(kept).len(),
                truncated: after.document.truncated,
                ..before
            })
            &&& event.sequence == before.upstream_events.len()
            &&& event.message_type == message_type
            &&& event.event_type == event_type
            &&& after.document.truncated <==> encode_utf8(payload).len() > room
            &&& !after.document.truncated ==> kept == payload
            &&& after.document.truncated ==> kept.len() < payload.len() && kept == payload.take(
                kept.len() as int,
            ) && encode_utf8(kept).len() <= room && encode_utf8(
                payload.take(kept.len() as int + 1),
            ).len() > room
        }),
{
    let room = (session.max_bytes - session.document.captured_bytes) as nat;
    law_cut_is_longest(payload, room);
    if byte_len(payload) > room {
        let kept = cut(payload, room);
        if kept.len() == payload.len() {
            assert(payload.take(kept.len() as int) =~= payload);
        }
    }
}

/// The end of a capture notes its time, its outcome and its error, and changes nothing else.
pub proof fn law_ending_notes_the_outcome(
    document: DocumentModel,
    finished_at: Seq<char>,
    outcome: Seq<char>,
    error: Option<Seq<char>>,
)
    ensures
        ({
            let after = finished(document, finished_at, outcome, error);
            &&& after.finished_at == Some(finished_at)
            &&& after.outcome == Some(outcome)
            &&& after.error == error
            &&& after == (DocumentModel {
                finished_at: after.finished_at,
                outcome: after.outcome,
                error: after.error,
                ..document
            })
        }),
{
}

/// The limit is the number that the setting names, if that is above zero and fits, else
/// eight mebibytes.
pub proof fn law_settings_limit_the_capture(setting: Seq<char>)
    ensures
        limit_in(None) == 8 * 1024 * 1024,
        ({
            let named = text::unsigned_number(setting, usize::MAX as nat);
            &&& named is Some && named->0 > 0 ==> limit_in(Some(setting)) == named->0
            &&& named is None || named->0 == 0 ==> limit_in(Some(setting)) == 8 * 1024 * 1024
        }),
{
}

/// A capture is seen as it is: each of its fields, and each event at its place with all that
/// it holds.
pub proof fn law_captures_are_seen_whole(document: CaptureDocument)
    ensures
        document@.capture_id == document.capture_id@,
        document@.started_at == document.started_at@,
        document@.finished_at == text::optional_text(document.finished_at),
        document@.model == document.model@,
        document@.stream == document.stream,
        document@.credential_id == document.credential_id,
        document@.request_body == document.request_body@,
        document@.outcome == text::optional_text(document.outcome),
        document@.error == text::optional_text(document.error),
        document@.truncated == document.truncated,
        document@.captured_bytes == document.captured_bytes,
        document@.upstream_events.len() == document.upstream_events.len(),
        forall|i: int|
            0 <= i < document.upstream_events.len() ==> {
                let event = document.upstream_events@[i];
                let seen = #[trigger] document@.upstream_events[i];
                &&& seen.sequence == event.sequence
                &&& seen.message_type == text::optional_text(event.message_type)
                &&& seen.event_type == text::optional_text(event.event_type)
                &&& seen.payload == event.payload@
            },
{
}

}
