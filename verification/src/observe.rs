//! Engine logs as bytes: one record per line, under a strict rule for a line
//! a crash cut short.

use crate::json::{
    lemma_key_place, lemma_member_value, lemma_members, members_of, text_is, value_member, Json,
    JsonNumber, JsonView, NumberView,
};
use crate::record::EventOrigin;
use crate::search::{lemma_place_from, lemma_place_is, place_from};
use crate::wire::{
    json_in, json_text, law_readable_is_written_as_it_is, read_json, readable, writable, write_json,
    written, NESTING, NEWLINE,
};
use std::sync::Arc;
use vstd::prelude::*;
use vstd::slice::slice_subrange;
use vstd::string::*;

verus! {

// ── Framing ────────────────────────────────────────────────────────────

/// The place of the first newline from `from` on: the length when there is
/// none.
pub open spec fn line_end(bytes: Seq<u8>, from: int) -> int {
    place_from(bytes, |at: int, byte: u8| byte == NEWLINE, from)
}

/// The lines that a newline ends, from `from` on, without their newlines.
pub open spec fn lines_from(bytes: Seq<u8>, from: int) -> Seq<Seq<u8>>
    decreases bytes.len() - from,
{
    let end = line_end(bytes, from);
    if from < 0 || end < from || end >= bytes.len() {
        Seq::empty()
    } else {
        seq![bytes.subrange(from, end)] + lines_from(bytes, end + 1)
    }
}

/// The end of the last line that a newline ends, from `from` on.
pub open spec fn clean_from(bytes: Seq<u8>, from: int) -> int
    decreases bytes.len() - from,
{
    let end = line_end(bytes, from);
    if from < 0 || end < from || end >= bytes.len() {
        from
    } else {
        clean_from(bytes, end + 1)
    }
}

/// Lines as bytes, each ended by a newline.
pub open spec fn framed(lines: Seq<Seq<u8>>) -> Seq<u8>
    decreases lines.len(),
{
    if lines.len() == 0 {
        Seq::empty()
    } else {
        framed(lines.drop_last()) + lines.last().push(NEWLINE)
    }
}

proof fn lemma_framed_front(lines: Seq<Seq<u8>>)
    requires
        lines.len() > 0,
    ensures
        framed(lines) == lines.first().push(NEWLINE) + framed(lines.drop_first()),
    decreases lines.len(),
{
    if lines.len() == 1 {
        assert(lines.drop_last() =~= Seq::empty());
        assert(lines.drop_first() =~= Seq::empty());
        assert(framed(lines) =~= lines.first().push(NEWLINE) + framed(lines.drop_first()));
    } else {
        lemma_framed_front(lines.drop_last());
        assert(lines.drop_last().drop_first() =~= lines.drop_first().drop_last());
        assert(framed(lines) =~= lines.first().push(NEWLINE) + framed(lines.drop_first()));
    }
}

proof fn lemma_line_end(bytes: Seq<u8>, from: int, at: int)
    requires
        0 <= from <= at < bytes.len(),
        bytes[at] == NEWLINE,
        forall|j: int| from <= j < at ==> #[trigger] bytes[j] != NEWLINE,
    ensures
        line_end(bytes, from) == at,
{
    let p = |at: int, byte: u8| byte == NEWLINE;
    lemma_place_from(bytes, p, from);
    let found = place_from(bytes, p, from);
    if found < at {
        assert(bytes[found] != NEWLINE);
        assert(p(found, bytes[found]));
    } else if at < found {
        assert(!p(at, bytes[at]));
    }
}

proof fn lemma_lines_of_framed(before: Seq<u8>, lines: Seq<Seq<u8>>)
    requires
        forall|i: int| 0 <= i < lines.len() ==> !(#[trigger] lines[i]).contains(NEWLINE),
    ensures
        lines_from(before + framed(lines), before.len() as int) == lines,
        clean_from(before + framed(lines), before.len() as int) == (before + framed(lines)).len(),
    decreases lines.len(),
{
    let bytes = before + framed(lines);
    let from = before.len() as int;
    if lines.len() == 0 {
        assert(bytes =~= before);
        lemma_place_from(bytes, |at: int, byte: u8| byte == NEWLINE, from);
        assert(lines_from(bytes, from) =~= lines);
    } else {
        lemma_framed_front(lines);
        let first = lines.first();
        let rest = lines.drop_first();
        let end = from + first.len();
        assert(!lines[0].contains(NEWLINE));
        assert(bytes[end] == NEWLINE);
        assert forall|j: int| from <= j < end implies #[trigger] bytes[j] != NEWLINE by {
            assert(bytes[j] == first[j - from]);
            assert(first.contains(first[j - from]));
        }
        lemma_line_end(bytes, from, end);
        assert(bytes.subrange(from, end) =~= first);
        let next = before + first.push(NEWLINE);
        assert(bytes =~= next + framed(rest));
        assert forall|i: int| 0 <= i < rest.len() implies !(#[trigger] rest[i]).contains(NEWLINE) by {
            assert(rest[i] == lines[i + 1]);
        }
        lemma_lines_of_framed(next, rest);
        assert(seq![first] + rest =~= lines);
    }
}

/// Lines framed and read again are the same lines, and nothing is torn off:
/// as long as no line holds a newline.
pub proof fn law_framing_round_trip(lines: Seq<Seq<u8>>)
    requires
        forall|i: int| 0 <= i < lines.len() ==> !(#[trigger] lines[i]).contains(NEWLINE),
    ensures
        lines_from(framed(lines), 0) == lines,
        clean_from(framed(lines), 0) == framed(lines).len(),
{
    lemma_lines_of_framed(Seq::empty(), lines);
    assert(Seq::<u8>::empty() + framed(lines) =~= framed(lines));
}

proof fn lemma_torn_changes_nothing(bytes: Seq<u8>, tail: Seq<u8>, from: int)
    requires
        0 <= from <= bytes.len(),
        clean_from(bytes, from) == bytes.len(),
        !tail.contains(NEWLINE),
    ensures
        lines_from(bytes + tail, from) == lines_from(bytes, from),
        clean_from(bytes + tail, from) == bytes.len(),
    decreases bytes.len() - from,
{
    let p = |at: int, byte: u8| byte == NEWLINE;
    let whole = bytes + tail;
    lemma_place_from(bytes, p, from);
    lemma_place_from(whole, p, from);
    let end = line_end(bytes, from);
    if end < bytes.len() {
        assert forall|j: int| from <= j < end implies #[trigger] whole[j] != NEWLINE by {
            assert(!p(j, bytes[j]));
        }
        assert(p(end, bytes[end]));
        lemma_line_end(whole, from, end);
        assert(whole.subrange(from, end) =~= bytes.subrange(from, end));
        lemma_torn_changes_nothing(bytes, tail, end + 1);
    } else {
        let found = line_end(whole, from);
        if found < whole.len() {
            assert(p(found, whole[found]));
            assert(whole[found] == tail[found - bytes.len()]);
            assert(tail.contains(tail[found - bytes.len()]));
        }
    }
}

/// A line a crash cut short is dropped and nothing else is: the lines before
/// it are read as they are without it.
pub proof fn law_torn_line_is_dropped(bytes: Seq<u8>, tail: Seq<u8>)
    requires
        clean_from(bytes, 0) == bytes.len(),
        !tail.contains(NEWLINE),
    ensures
        lines_from(bytes + tail, 0) == lines_from(bytes, 0),
        clean_from(bytes + tail, 0) == bytes.len(),
{
    lemma_torn_changes_nothing(bytes, tail, 0);
}

// ── Lines ──────────────────────────────────────────────────────────────

/// One line of an engine log: a record's place, who appended it, when, and
/// its event as it is stored.
#[derive(Debug)]
pub struct LogLine {
    pub seq: u64,
    pub origin: EventOrigin,
    /// Milliseconds since the Unix epoch when the record was appended.
    pub recorded_at: u64,
    pub body: Json,
}

/// A line, apart from how its event is stored.
pub struct LineView {
    pub seq: u64,
    pub origin: EventOrigin,
    pub recorded_at: u64,
    pub body: JsonView,
}

/// What a line is, apart from how it is stored.
pub open spec fn line_view(line: LogLine) -> LineView {
    LineView {
        seq: line.seq,
        origin: line.origin,
        recorded_at: line.recorded_at,
        body: line.body@,
    }
}

/// What lines are, apart from how they are stored.
pub open spec fn line_views(lines: Seq<LogLine>) -> Seq<LineView> {
    lines.map_values(|line: LogLine| line_view(line))
}

/// An origin's name in a log.
pub open spec fn origin_name(origin: EventOrigin) -> Seq<char> {
    match origin {
        EventOrigin::External => "external"@,
        EventOrigin::Core => "core"@,
    }
}

/// The origin with a name.
pub open spec fn origin_named(name: Seq<char>) -> Option<EventOrigin> {
    if name == "external"@ {
        Some(EventOrigin::External)
    } else if name == "core"@ {
        Some(EventOrigin::Core)
    } else {
        None
    }
}

/// A line as a value: `seq`, `origin`, `recorded_at` and `body`, in this
/// order.
pub open spec fn line_value(line: LineView) -> JsonView {
    JsonView::Object(
        seq![
            ("seq"@, JsonView::Number(NumberView::Unsigned(line.seq))),
            ("origin"@, JsonView::Text(origin_name(line.origin))),
            ("recorded_at"@, JsonView::Number(NumberView::Unsigned(line.recorded_at))),
            ("body"@, line.body),
        ],
    )
}

/// The line a value is, when it is one.
pub open spec fn line_in(value: JsonView) -> Option<LineView> {
    match (
        value_member(value, "seq"@),
        value_member(value, "origin"@),
        value_member(value, "recorded_at"@),
        value_member(value, "body"@),
    ) {
        (
            Some(JsonView::Number(NumberView::Unsigned(seq))),
            Some(JsonView::Text(origin)),
            Some(JsonView::Number(NumberView::Unsigned(recorded_at))),
            Some(body),
        ) => match origin_named(origin) {
            Some(origin) => Some(LineView { seq, origin, recorded_at, body }),
            None => None,
        },
        _ => None,
    }
}

/// A line written as a value reads as the line.
pub proof fn law_line_reads_back(line: LineView)
    ensures
        line_in(line_value(line)) == Some(line),
{
    reveal_strlit("seq");
    reveal_strlit("origin");
    reveal_strlit("recorded_at");
    reveal_strlit("body");
    reveal_strlit("external");
    reveal_strlit("core");
    assert("seq"@.len() == 3 && "origin"@.len() == 6 && "recorded_at"@.len() == 11 && "body"@.len()
        == 4);
    assert("external"@.len() == 8 && "core"@.len() == 4);
    let members = line_value(line)->Object_0;
    lemma_key_place(members, "seq"@, 0);
    lemma_key_place(members, "origin"@, 1);
    lemma_key_place(members, "recorded_at"@, 2);
    lemma_key_place(members, "body"@, 3);
}

/// Why stored engine records could not become a log.
///
/// The torn-line rule of the file framing is strict: a final line is *torn*
/// only when the bytes end before its terminating newline, and only then is
/// it dropped. A newline-terminated line that fails to decode refuses the
/// load: corruption must not be silently accepted as a crash prefix.
#[allow(inconsistent_fields)]
#[derive(Clone, Copy, Debug, PartialEq, Eq, Structural)]
pub enum EngineLogDecodeError {
    /// The line, counted from 1, is not an event record.
    BadRecord { line: usize },
    /// The record at `index` does not carry that seq.
    SeqMismatch { index: usize, found: u64 },
}

/// Whether a place is among those whose value's body is no engine event.
pub open spec fn is_foreign(foreign: Seq<usize>, at: int) -> bool {
    exists|k: int| 0 <= k < foreign.len() && (#[trigger] foreign[k]) == at
}

/// The first of values that is not a line, or not one of an engine event.
pub open spec fn first_bad(values: Seq<JsonView>, foreign: Seq<usize>) -> int {
    place_from(
        values,
        |at: int, value: JsonView| line_in(value) is None || is_foreign(foreign, at),
        0,
    )
}

/// The lines values are.
pub open spec fn lines_of(values: Seq<JsonView>) -> Seq<LineView> {
    values.map_values(|value: JsonView| line_in(value)->0)
}

/// The first of lines that does not carry its place as its seq, when they
/// start at `from`.
pub open spec fn first_misplaced(lines: Seq<LineView>, from: int) -> int {
    place_from(lines, |at: int, line: LineView| line.seq != from + at, 0)
}

/// The part of a log from `from` on that stored values are: every one a line
/// of an engine event, and then each under its place. `foreign` is the places
/// among the values whose body is no engine event.
pub open spec fn tail_decoded(values: Seq<JsonView>, foreign: Seq<usize>, from: int) -> Result<
    Seq<LineView>,
    EngineLogDecodeError,
> {
    let lines = lines_of(values);
    let bad = first_bad(values, foreign);
    let wrong = first_misplaced(lines, from);
    if bad < values.len() {
        Err(EngineLogDecodeError::BadRecord { line: (from + bad + 1) as usize })
    } else if wrong < lines.len() {
        Err(
            EngineLogDecodeError::SeqMismatch {
                index: (from + wrong) as usize,
                found: lines[wrong].seq,
            },
        )
    } else {
        Ok(lines)
    }
}

/// The log stored values are.
pub open spec fn values_decoded(values: Seq<JsonView>, foreign: Seq<usize>) -> Result<
    Seq<LineView>,
    EngineLogDecodeError,
> {
    tail_decoded(values, foreign, 0)
}

fn read_origin(name: &String) -> (origin: Option<EventOrigin>)
    ensures
        origin == origin_named(name@),
{
    if text_is(name, "external") {
        Some(EventOrigin::External)
    } else if text_is(name, "core") {
        Some(EventOrigin::Core)
    } else {
        None
    }
}

pub(crate) fn read_line(value: &Json) -> (line: Option<LogLine>)
    ensures
        match line {
            Some(line) => line_in(value@) == Some(line_view(line)),
            None => line_in(value@) is None,
        },
{
    proof {
        lemma_member_value(*value, "seq"@);
        lemma_member_value(*value, "origin"@);
        lemma_member_value(*value, "recorded_at"@);
        lemma_member_value(*value, "body"@);
    }
    let seq = match value.get("seq") {
        Some(Json::Number(JsonNumber::Unsigned(seq))) => *seq,
        _ => return None,
    };
    let origin = match value.get("origin") {
        Some(Json::Text(name)) => match read_origin(name) {
            Some(origin) => origin,
            None => return None,
        },
        _ => return None,
    };
    let recorded_at = match value.get("recorded_at") {
        Some(Json::Number(JsonNumber::Unsigned(recorded_at))) => *recorded_at,
        _ => return None,
    };
    match value.get("body") {
        Some(body) => Some(LogLine { seq, origin, recorded_at, body: body.clone() }),
        None => None,
    }
}

/// One execution's engine log, decoded: its lines, each under its seq, with
/// its recording time.
#[derive(Debug)]
pub struct DecodedEngineLog {
    pub lines: Vec<LogLine>,
}

/// What stored values are, apart from how they are stored.
pub open spec fn stored_views(stored: Seq<Json>) -> Seq<JsonView> {
    stored.map_values(|value: Json| value@)
}

/// Whether a decoded log is what decoding says it is.
pub open spec fn decodes_to(
    decoded: Result<Seq<LogLine>, EngineLogDecodeError>,
    expected: Result<Seq<LineView>, EngineLogDecodeError>,
) -> bool {
    match (decoded, expected) {
        (Ok(lines), Ok(views)) => line_views(lines) == views,
        (Err(error), Err(other)) => error == other,
        _ => false,
    }
}

/// The lines of a decoded log.
pub open spec fn log_lines(decoded: Result<DecodedEngineLog, EngineLogDecodeError>) -> Result<
    Seq<LogLine>,
    EngineLogDecodeError,
> {
    match decoded {
        Ok(log) => Ok(log.lines@),
        Err(error) => Err(error),
    }
}

fn among(foreign: &Vec<usize>, at: usize) -> (found: bool)
    ensures
        found == is_foreign(foreign@, at as int),
{
    let mut k: usize = 0;
    while k < foreign.len()
        invariant
            k <= foreign.len(),
            forall|j: int| 0 <= j < k ==> (#[trigger] foreign@[j]) != at,
        decreases foreign.len() - k,
    {
        if foreign[k] == at {
            assert(foreign@[k as int] == at);
            return true;
        }
        k = k + 1;
    }
    false
}

/// Decode the stored records of one engine log. `foreign` is the places of
/// those whose body is no engine event.
pub fn decode_engine_records(stored: &Vec<Json>, foreign: &Vec<usize>) -> (decoded: Result<
    DecodedEngineLog,
    EngineLogDecodeError,
>)
    ensures
        decodes_to(log_lines(decoded), values_decoded(stored_views(stored@), foreign@)),
{
    let count: usize = stored.len();
    assert(stored@.len() == count);
    decode_engine_tail(0, stored, foreign)
}

/// Decode the stored tail of an execution's log, contiguous from `from`: a
/// line that does not decode and a gap in the seqs are the errors the full
/// decode reports, at the same line numbers.
pub fn decode_engine_tail(from: usize, stored: &Vec<Json>, foreign: &Vec<usize>) -> (decoded: Result<
    DecodedEngineLog,
    EngineLogDecodeError,
>)
    requires
        from + stored@.len() <= usize::MAX,
    ensures
        decodes_to(log_lines(decoded), tail_decoded(stored_views(stored@), foreign@, from as int)),
{
    let ghost values = stored_views(stored@);
    let ghost bad = |at: int, value: JsonView| line_in(value) is None || is_foreign(foreign@, at);
    let mut lines: Vec<LogLine> = Vec::new();
    let mut i: usize = 0;
    while i < stored.len()
        invariant
            i <= stored.len(),
            from + stored@.len() <= usize::MAX,
            values == stored_views(stored@),
            bad == (|at: int, value: JsonView|
                line_in(value) is None || is_foreign(foreign@, at)),
            lines@.len() == i,
            forall|j: int| 0 <= j < i ==> !bad(j, #[trigger] values[j]),
            forall|j: int|
                0 <= j < i ==> line_view(#[trigger] lines@[j]) == line_in(values[j])->0,
        decreases stored.len() - i,
    {
        assert(values[i as int] == stored@[i as int]@);
        let line = if among(foreign, i) {
            None
        } else {
            read_line(&stored[i])
        };
        match line {
            Some(line) => lines.push(line),
            None => {
                proof {
                    assert(bad(i as int, values[i as int]));
                    lemma_place_is(values, bad, i as int);
                }
                return Err(EngineLogDecodeError::BadRecord { line: from + i + 1 });
            },
        }
        i = i + 1;
    }
    proof {
        lemma_place_is(values, bad, values.len() as int);
        assert(line_views(lines@) =~= lines_of(values));
    }
    match misplaced(&lines, from) {
        Some(at) => Err(
            EngineLogDecodeError::SeqMismatch { index: from + at, found: lines[at].seq },
        ),
        None => Ok(DecodedEngineLog { lines }),
    }
}

fn misplaced(lines: &Vec<LogLine>, from: usize) -> (at: Option<usize>)
    requires
        from + lines@.len() <= usize::MAX,
    ensures
        match at {
            Some(at) => at < lines@.len() && first_misplaced(line_views(lines@), from as int) == at,
            None => first_misplaced(line_views(lines@), from as int) == lines@.len(),
        },
{
    let ghost views = line_views(lines@);
    let ghost wrong = |at: int, line: LineView| line.seq != from + at;
    let mut i: usize = 0;
    while i < lines.len()
        invariant
            i <= lines.len(),
            from + lines@.len() <= usize::MAX,
            views == line_views(lines@),
            wrong == (|at: int, line: LineView| line.seq != from + at),
            forall|j: int| 0 <= j < i ==> !wrong(j, #[trigger] views[j]),
        decreases lines.len() - i,
    {
        assert(views[i as int] == line_view(lines@[i as int]));
        if lines[i].seq != (from + i) as u64 {
            proof {
                assert(wrong(i as int, views[i as int]));
                lemma_place_is(views, wrong, i as int);
            }
            return Some(i);
        }
        i = i + 1;
    }
    proof {
        lemma_place_is(views, wrong, views.len() as int);
    }
    None
}

// ── Files ──────────────────────────────────────────────────────────────

/// An engine log decoded from a file's bytes: its lines, the length of the
/// bytes they were read from, and whether a torn line followed them.
#[derive(Debug)]
pub struct DecodedEngineFile {
    pub lines: Vec<LogLine>,
    pub clean_len: usize,
    pub torn: bool,
}

/// The first of lines that is not the text of an object.
pub open spec fn first_unread(lines: Seq<Seq<u8>>) -> int {
    place_from(
        lines,
        |at: int, line: Seq<u8>| !(json_in(line) matches Some(JsonView::Object(_))),
        0,
    )
}

/// The values lines are the text of.
pub open spec fn values_in(lines: Seq<Seq<u8>>) -> Seq<JsonView> {
    lines.map_values(|line: Seq<u8>| json_in(line)->0)
}

/// The log lines are the text of.
pub open spec fn lines_decoded(lines: Seq<Seq<u8>>, foreign: Seq<usize>) -> Result<
    Seq<LineView>,
    EngineLogDecodeError,
> {
    if first_unread(lines) < lines.len() {
        Err(EngineLogDecodeError::BadRecord { line: (first_unread(lines) + 1) as usize })
    } else {
        values_decoded(values_in(lines), foreign)
    }
}

/// The log a file's bytes are: one record per line, under the strict
/// torn-line rule.
pub open spec fn file_decoded(bytes: Seq<u8>, foreign: Seq<usize>) -> Result<
    Seq<LineView>,
    EngineLogDecodeError,
> {
    lines_decoded(lines_from(bytes, 0), foreign)
}

/// The lines of a decoded file.
pub open spec fn file_lines(decoded: Result<DecodedEngineFile, EngineLogDecodeError>) -> Result<
    Seq<LogLine>,
    EngineLogDecodeError,
> {
    match decoded {
        Ok(file) => Ok(file.lines@),
        Err(error) => Err(error),
    }
}

fn end_of_line(bytes: &[u8], from: usize) -> (end: usize)
    requires
        from <= bytes@.len(),
    ensures
        end == line_end(bytes@, from as int),
        from <= end <= bytes@.len(),
{
    let ghost p = |at: int, byte: u8| byte == NEWLINE;
    let mut end: usize = from;
    proof {
        lemma_place_from(bytes@, p, from as int);
    }
    while end < bytes.len() && bytes[end] != NEWLINE
        invariant
            from <= end <= bytes@.len(),
            p == (|at: int, byte: u8| byte == NEWLINE),
            place_from(bytes@, p, from as int) == place_from(bytes@, p, end as int),
        decreases bytes@.len() - end,
    {
        end = end + 1;
    }
    end
}

/// The values a log file's lines are the text of, and the length of the
/// bytes they were read from.
#[derive(Debug)]
pub struct EngineFileValues {
    pub values: Vec<Json>,
    pub clean_len: usize,
}

/// Parse a log file's bytes: one object per line, under the strict torn-line
/// rule.
pub fn engine_file_values(bytes: &[u8]) -> (read: Result<EngineFileValues, EngineLogDecodeError>)
    ensures
        match read {
            Ok(file) => {
                &&& first_unread(lines_from(bytes@, 0)) == lines_from(bytes@, 0).len()
                &&& stored_views(file.values@) == values_in(lines_from(bytes@, 0))
                &&& file.values@.len() <= file.clean_len
                &&& file.clean_len == clean_from(bytes@, 0)
                &&& file.clean_len <= bytes@.len()
            },
            Err(error) => {
                &&& first_unread(lines_from(bytes@, 0)) < lines_from(bytes@, 0).len()
                &&& error == EngineLogDecodeError::BadRecord {
                    line: (first_unread(lines_from(bytes@, 0)) + 1) as usize,
                }
            },
        },
{
    let ghost lines = lines_from(bytes@, 0);
    let ghost unread = |at: int, line: Seq<u8>|
        !(json_in(line) matches Some(JsonView::Object(_)));
    let mut stored: Vec<Json> = Vec::new();
    let mut from: usize = 0;
    let mut end: usize = end_of_line(bytes, 0);
    proof {
        assert(lines.skip(0) =~= lines);
    }
    while end < bytes.len()
        invariant
            from <= end <= bytes@.len(),
            end == line_end(bytes@, from as int),
            lines == lines_from(bytes@, 0),
            unread == (|at: int, line: Seq<u8>|
                !(json_in(line) matches Some(JsonView::Object(_)))),
            clean_from(bytes@, 0) == clean_from(bytes@, from as int),
            stored@.len() <= from,
            stored@.len() <= lines.len(),
            lines.skip(stored@.len() as int) == lines_from(bytes@, from as int),
            forall|j: int| 0 <= j < stored@.len() ==> !unread(j, #[trigger] lines[j]),
            forall|j: int|
                0 <= j < stored@.len() ==> json_in(lines[j]) == Some((#[trigger] stored@[j])@),
        decreases bytes@.len() - from,
    {
        let line = slice_subrange(bytes, from, end);
        let ghost at = stored@.len() as int;
        let ghost left = lines_from(bytes@, from as int);
        proof {
            assert(left == seq![bytes@.subrange(from as int, end as int)] + lines_from(
                bytes@,
                end + 1,
            ));
            assert(left[0] == line@);
            assert(lines.skip(at).len() == lines.len() - at);
            assert(lines[at] == lines.skip(at)[0]);
        }
        match read_json(line) {
            Some(Json::Object(members)) => {
                let value = Json::Object(members);
                assert(!unread(at, lines[at]));
                stored.push(value);
                proof {
                    assert(lines.skip(at + 1) =~= left.skip(1));
                    assert(left.skip(1) =~= lines_from(bytes@, end + 1));
                }
            },
            _ => {
                proof {
                    assert(unread(at, lines[at]));
                    lemma_place_is(lines, unread, at);
                }
                return Err(EngineLogDecodeError::BadRecord { line: stored.len() + 1 });
            },
        }
        from = end + 1;
        end = end_of_line(bytes, from);
    }
    proof {
        assert(lines.skip(stored@.len() as int).len() == 0);
        assert(stored@.len() == lines.len());
        lemma_place_is(lines, unread, lines.len() as int);
        assert(stored_views(stored@) =~= values_in(lines));
    }
    Ok(EngineFileValues { values: stored, clean_len: from })
}

/// Decode a log file's bytes: one record per line, under the strict
/// torn-line rule. `foreign` is the places of the lines whose body is no
/// engine event.
pub fn decode_engine_log(bytes: &[u8], foreign: &Vec<usize>) -> (decoded: Result<
    DecodedEngineFile,
    EngineLogDecodeError,
>)
    ensures
        decodes_to(file_lines(decoded), file_decoded(bytes@, foreign@)),
        decoded matches Ok(file) ==> {
            &&& file.clean_len == clean_from(bytes@, 0)
            &&& file.torn == (file.clean_len < bytes@.len())
        },
{
    match engine_file_values(bytes) {
        Ok(file) => match decode_engine_records(&file.values, foreign) {
            Ok(log) => Ok(
                DecodedEngineFile {
                    lines: log.lines,
                    clean_len: file.clean_len,
                    torn: file.clean_len < bytes.len(),
                },
            ),
            Err(error) => Err(error),
        },
        Err(error) => Err(error),
    }
}

/// The texts of lines.
pub open spec fn line_texts(lines: Seq<LineView>) -> Seq<Seq<u8>> {
    lines.map_values(|line: LineView| json_text(written(line_value(line))))
}

/// Whether every line can be written: a decimal in a line may be no number.
pub open spec fn lines_writable(lines: Seq<LineView>) -> bool {
    forall|i: int| 0 <= i < lines.len() ==> writable(line_value(#[trigger] lines[i]))
}

/// Whether every line is one that is read back, under its place.
pub open spec fn lines_readable(lines: Seq<LineView>) -> bool {
    forall|i: int|
        0 <= i < lines.len() ==> (#[trigger] lines[i]).seq == i && readable(
            line_value(lines[i]),
            NESTING as nat,
        )
}

fn name_origin(origin: EventOrigin) -> (name: String)
    ensures
        name@ == origin_name(origin),
{
    match origin {
        EventOrigin::External => "external".to_owned(),
        EventOrigin::Core => "core".to_owned(),
    }
}

/// A line as a value.
pub fn encode_engine_record(line: &LogLine) -> (value: Json)
    ensures
        value@ == line_value(line_view(*line)),
{
    let members = vec![
        ("seq".to_owned(), Json::Number(JsonNumber::Unsigned(line.seq))),
        ("origin".to_owned(), Json::Text(name_origin(line.origin))),
        ("recorded_at".to_owned(), Json::Number(JsonNumber::Unsigned(line.recorded_at))),
        ("body".to_owned(), line.body.clone()),
    ];
    proof {
        lemma_members(members@);
        assert(members_of(members@) =~= line_value(line_view(*line))->Object_0);
    }
    Json::Object(Arc::new(members))
}

proof fn lemma_texts_decode(lines: Seq<LineView>, texts: Seq<Seq<u8>>)
    requires
        texts.len() == lines.len(),
        lines_readable(lines),
        forall|i: int|
            0 <= i < lines.len() ==> json_in(#[trigger] texts[i]) == Some(line_value(lines[i])),
    ensures
        lines_decoded(texts, Seq::empty()) == Ok::<Seq<LineView>, EngineLogDecodeError>(lines),
{
    let unread = |at: int, line: Seq<u8>| !(json_in(line) matches Some(JsonView::Object(_)));
    assert forall|j: int| 0 <= j < texts.len() implies !unread(j, #[trigger] texts[j]) by {
        assert(json_in(texts[j]) == Some(line_value(lines[j])));
    }
    lemma_place_is(texts, unread, texts.len() as int);
    let values = values_in(texts);
    let foreign = Seq::<usize>::empty();
    let bad = |at: int, value: JsonView| line_in(value) is None || is_foreign(foreign, at);
    assert forall|j: int| 0 <= j < values.len() implies !bad(j, #[trigger] values[j]) && line_in(
        values[j],
    ) == Some(lines[j]) by {
        assert(json_in(texts[j]) == Some(line_value(lines[j])));
        law_line_reads_back(lines[j]);
    }
    lemma_place_is(values, bad, values.len() as int);
    assert(lines_of(values) =~= lines);
    let wrong = |at: int, line: LineView| line.seq != 0 + at;
    assert forall|j: int| 0 <= j < lines.len() implies !wrong(j, #[trigger] lines[j]) by {}
    lemma_place_is(lines, wrong, lines.len() as int);
}

/// Render a log in the file framing, produced in one piece: each line's text
/// and a newline. Nothing when a decimal in a line is no number. The file
/// decodes to the same lines, with their recording times and nothing torn,
/// when every line is under its place and of a kind that is read back.
pub fn encode_engine_log(lines: &Vec<LogLine>) -> (bytes: Option<Vec<u8>>)
    ensures
        bytes is Some <==> lines_writable(line_views(lines@)),
        bytes matches Some(bytes) ==> {
            &&& bytes@ == framed(line_texts(line_views(lines@)))
            &&& clean_from(bytes@, 0) == bytes@.len()
            &&& lines_from(bytes@, 0) == line_texts(line_views(lines@))
            &&& lines_readable(line_views(lines@)) ==> file_decoded(bytes@, Seq::empty()) == Ok::<
                Seq<LineView>,
                EngineLogDecodeError,
            >(line_views(lines@))
        },
{
    let ghost views = line_views(lines@);
    let ghost texts = line_texts(views);
    let mut out: Vec<u8> = Vec::new();
    let mut i: usize = 0;
    assert(texts.take(0) =~= Seq::empty());
    while i < lines.len()
        invariant
            i <= lines.len(),
            views == line_views(lines@),
            texts == line_texts(views),
            out@ == framed(texts.take(i as int)),
            forall|j: int| 0 <= j < i ==> writable(line_value(#[trigger] views[j])),
            forall|j: int| 0 <= j < i ==> !(#[trigger] texts[j]).contains(NEWLINE),
            forall|j: int|
                0 <= j < i && readable(line_value(views[j]), NESTING as nat) ==> json_in(
                    #[trigger] texts[j],
                ) == Some(line_value(views[j])),
        decreases lines.len() - i,
    {
        let value = encode_engine_record(&lines[i]);
        assert(value@ == line_value(views[i as int]));
        match write_json(&value) {
            Some(text) => {
                let ghost before = out@;
                let ghost line = text@;
                proof {
                    assert(texts[i as int] == line);
                    if readable(value@, NESTING as nat) {
                        law_readable_is_written_as_it_is(value@, NESTING as nat);
                    }
                    assert(texts.take(i + 1).drop_last() =~= texts.take(i as int));
                }
                let mut text = text;
                out.append(&mut text);
                out.push(NEWLINE);
                assert(out@ =~= before + line.push(NEWLINE));
            },
            None => {
                assert(!writable(line_value(views[i as int])));
                return None;
            },
        }
        i = i + 1;
    }
    proof {
        assert(texts.take(i as int) =~= texts);
        law_framing_round_trip(texts);
        if lines_readable(views) {
            lemma_texts_decode(views, texts);
        }
    }
    Some(out)
}

} // verus!
