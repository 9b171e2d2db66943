//! What logs, digests and options are written and read as.

use crate::client::{invoke_message, InvokeError};
use crate::coordinator::CoordinatorOptions;
use crate::digest::{digest_named, digest_text, hex, hex_digit, hex_value, unhex};
use crate::host::{asked_options, policy_of, HostError, PolicyMiddleware};
use crate::ids::{ExecutionId, FiringId, GraphDigest, ScopeId};
use crate::json::{value_member, JsonView, NumberView};
use crate::model::Graph;
use crate::observe::{
    clean_from, file_decoded, first_bad, first_misplaced, first_unread, framed, is_foreign,
    line_end, line_in, line_value, lines_from, lines_of, tail_decoded, values_decoded, values_in,
    EngineLogDecodeError, LineView,
};
use crate::search::{lemma_place_from, lemma_place_is, place_from};
use crate::text::{decimal, digit};
use crate::wire::json_in;
use crate::writer::{flat, Batch};
use vstd::prelude::*;
use vstd::string::*;

verus! {

// ── Lines ──────────────────────────────────────────────────────────────

/// Reading from a place gives the bytes up to the next newline as a line and
/// goes on behind it; bytes without a newline are no line.
pub proof fn law_where_lines_end(bytes: Seq<u8>, from: int, at: int)
    requires
        0 <= from <= at <= bytes.len(),
        forall|j: int| from <= j < at ==> #[trigger] bytes[j] != 10,
        at < bytes.len() ==> bytes[at] == 10,
    ensures
        at == bytes.len() ==> lines_from(bytes, from).len() == 0 && clean_from(bytes, from) == from,
        at < bytes.len() ==> lines_from(bytes, from).len() == 1 + lines_from(bytes, at + 1).len()
            && lines_from(bytes, from)[0] == bytes.subrange(from, at) && lines_from(
            bytes,
            from,
        ).skip(1) == lines_from(bytes, at + 1) && clean_from(bytes, from) == clean_from(
            bytes,
            at + 1,
        ),
{
    let p = |at: int, byte: u8| byte == 10;
    assert(line_end(bytes, from) == place_from(bytes, p, from));
    lemma_place_from(bytes, p, from);
    let found = line_end(bytes, from);
    if found < at {
        assert(p(found, bytes[found]));
        assert(bytes[found] != 10);
    } else if at < found {
        assert(!p(at, bytes[at]));
    }
    assert(found == at);
    if at < bytes.len() {
        assert(lines_from(bytes, from).skip(1) =~= lines_from(bytes, at + 1));
    }
}

/// A log's file is its lines, each followed by a newline.
pub proof fn law_how_lines_are_framed(lines: Seq<Seq<u8>>, line: Seq<u8>)
    ensures
        framed(Seq::empty()).len() == 0,
        framed(lines.push(line)) == framed(lines) + line.push(10),
{
    assert(lines.push(line).drop_last() =~= lines);
}

/// A line is written under four names, in order, and its origin by name.
pub proof fn law_how_a_line_is_written(line: LineView)
    ensures
        line_value(line) matches JsonView::Object(members) && members.len() == 4 && members[0] == (
            "seq"@,
            JsonView::Number(NumberView::Unsigned(line.seq)),
        ) && members[1].0 == "origin"@ && members[2] == (
            "recorded_at"@,
            JsonView::Number(NumberView::Unsigned(line.recorded_at)),
        ) && members[3] == ("body"@, line.body) && (line.origin is External ==> members[1].1
            == JsonView::Text("external"@)) && (line.origin is Core ==> members[1].1
            == JsonView::Text("core"@)),
{
}

/// A value is a line exactly when it has the four members, each of its kind,
/// and the origin is one of the two.
pub proof fn law_what_reads_as_a_line(value: JsonView)
    ensures
        line_in(value) matches Some(line) ==> value_member(value, "seq"@) == Some(
            JsonView::Number(NumberView::Unsigned(line.seq)),
        ) && value_member(value, "recorded_at"@) == Some(
            JsonView::Number(NumberView::Unsigned(line.recorded_at)),
        ) && value_member(value, "body"@) == Some(line.body) && (value_member(value, "origin"@)
            == Some(JsonView::Text("external"@)) && line.origin is External || value_member(
            value,
            "origin"@,
        ) == Some(JsonView::Text("core"@)) && line.origin is Core),
        line_in(value) is None ==> !(value_member(value, "seq"@) matches Some(
            JsonView::Number(NumberView::Unsigned(_)),
        )) || !(value_member(value, "recorded_at"@) matches Some(
            JsonView::Number(NumberView::Unsigned(_)),
        )) || value_member(value, "body"@) is None || (value_member(value, "origin"@) != Some(
            JsonView::Text("external"@),
        ) && value_member(value, "origin"@) != Some(JsonView::Text("core"@))),
{
    reveal_strlit("external");
    reveal_strlit("core");
    assert("external"@.len() == 8 && "core"@.len() == 4);
}

/// A stored log that has a value that is no line of an engine event is
/// refused at the first such, counted from one over the whole log.
pub proof fn law_a_bad_record_is_refused(
    values: Seq<JsonView>,
    foreign: Seq<usize>,
    from: int,
    at: int,
)
    requires
        0 <= at < values.len(),
        0 <= from,
        from + values.len() < usize::MAX,
        line_in(values[at]) is None || exists|k: int|
            0 <= k < foreign.len() && (#[trigger] foreign[k]) == at,
        forall|j: int|
            0 <= j < at ==> line_in(#[trigger] values[j]) is Some && forall|k: int|
                0 <= k < foreign.len() ==> (#[trigger] foreign[k]) != j,
    ensures
        tail_decoded(values, foreign, from) matches Err(
            EngineLogDecodeError::BadRecord { line },
        ) && line == from + at + 1,
{
    let bad = |at: int, value: JsonView| line_in(value) is None || is_foreign(foreign, at);
    assert forall|j: int| 0 <= j < at implies !bad(j, #[trigger] values[j]) by {}
    assert(bad(at, values[at]));
    lemma_place_is(values, bad, at);
    assert(first_bad(values, foreign) == at);
}

/// A stored log of lines is refused at the first that does not carry its
/// place, with what it carries; one in which each does is read as its lines.
pub proof fn law_lines_carry_their_places(
    values: Seq<JsonView>,
    foreign: Seq<usize>,
    from: int,
    at: int,
)
    requires
        0 <= at <= values.len(),
        0 <= from,
        from + values.len() < usize::MAX,
        forall|j: int|
            0 <= j < values.len() ==> line_in(#[trigger] values[j]) is Some && forall|k: int|
                0 <= k < foreign.len() ==> (#[trigger] foreign[k]) != j,
        forall|j: int| 0 <= j < at ==> line_in(#[trigger] values[j])->0.seq == from + j,
        at < values.len() ==> line_in(values[at])->0.seq != from + at,
    ensures
        at < values.len() ==> (tail_decoded(values, foreign, from) matches Err(
            EngineLogDecodeError::SeqMismatch { index, found },
        ) && index == from + at && found == line_in(values[at])->0.seq),
        at == values.len() ==> (tail_decoded(values, foreign, from) matches Ok(lines) && lines.len()
            == values.len() && forall|j: int|
            0 <= j < lines.len() ==> Some(#[trigger] lines[j]) == line_in(values[j])),
        values_decoded(values, foreign) == tail_decoded(values, foreign, 0),
{
    let bad = |at: int, value: JsonView| line_in(value) is None || is_foreign(foreign, at);
    assert forall|j: int| 0 <= j < values.len() implies !bad(j, #[trigger] values[j]) by {}
    lemma_place_is(values, bad, values.len() as int);
    assert(first_bad(values, foreign) == values.len());
    let lines = lines_of(values);
    let wrong = |at: int, line: LineView| line.seq != from + at;
    assert forall|j: int| 0 <= j < at implies !wrong(j, #[trigger] lines[j]) by {
        assert(lines[j] == line_in(values[j])->0);
    }
    if at < values.len() {
        assert(lines[at] == line_in(values[at])->0);
    }
    lemma_place_is(lines, wrong, at);
    assert(first_misplaced(lines, from) == at);
}

/// A file with a line that is no object's text is refused at the first such,
/// counted from one, before anything else is looked at; one without is read
/// as the values its lines are.
pub proof fn law_how_a_file_is_read(bytes: Seq<u8>, foreign: Seq<usize>, at: int)
    requires
        0 <= at <= lines_from(bytes, 0).len(),
        lines_from(bytes, 0).len() < usize::MAX,
        forall|j: int|
            0 <= j < at ==> (json_in(#[trigger] lines_from(bytes, 0)[j]) matches Some(
                JsonView::Object(_),
            )),
        at < lines_from(bytes, 0).len() ==> !(json_in(lines_from(bytes, 0)[at]) matches Some(
            JsonView::Object(_),
        )),
    ensures
        at < lines_from(bytes, 0).len() ==> (file_decoded(bytes, foreign) matches Err(
            EngineLogDecodeError::BadRecord { line },
        ) && line == at + 1),
        at == lines_from(bytes, 0).len() ==> file_decoded(bytes, foreign) == values_decoded(
            lines_from(bytes, 0).map_values(|line: Seq<u8>| json_in(line)->0),
            foreign,
        ),
{
    let lines = lines_from(bytes, 0);
    let unread = |at: int, line: Seq<u8>| !(json_in(line) matches Some(JsonView::Object(_)));
    assert forall|j: int| 0 <= j < at implies !unread(j, #[trigger] lines[j]) by {}
    lemma_place_is(lines, unread, at);
    assert(first_unread(lines) == at);
    assert(values_in(lines) =~= lines.map_values(|line: Seq<u8>| json_in(line)->0));
}

/// Batches are stored one behind the other, each record under its batch's
/// log.
pub proof fn law_records_keep_their_log(batches: Seq<Batch>, batch: Batch, i: int)
    ensures
        flat(Seq::empty()).len() == 0,
        flat(batches.push(batch)).len() == flat(batches).len() + batch.records@.len(),
        flat(batches.push(batch)).take(flat(batches).len() as int) == flat(batches),
        0 <= i < batch.records@.len() ==> flat(batches.push(batch))[flat(batches).len() + i] == (
            batch.log,
            batch.records@[i],
        ),
{
    assert(batches.push(batch).drop_last() =~= batches);
    assert(flat(batches.push(batch)).take(flat(batches).len() as int) =~= flat(batches));
}

// ── Digests and numbers ────────────────────────────────────────────────

/// A digit of either base reads as its number, in lower and upper case.
pub proof fn law_what_a_digit_stands_for(d: nat)
    requires
        d < 16,
    ensures
        d < 10 ==> hex_digit(d) as int == '0' as int + d && digit(d) as int == '0' as int + d,
        d >= 10 ==> hex_digit(d) as int == 'a' as int + d - 10,
        hex_value(hex_digit(d)) == Some(d),
        hex_value('A') == Some(10nat) && hex_value('F') == Some(15nat),
        hex_value('g') is None && hex_value('/') is None && hex_value(':') is None,
{
}

/// A number in decimal ends with its last digit behind the rest of it.
pub proof fn law_how_a_number_is_written(n: nat, d: nat)
    requires
        d < 10,
    ensures
        decimal(d).len() == 1 && decimal(d)[0] as int == '0' as int + d,
        n > 0 ==> decimal(n * 10 + d).drop_last() == decimal(n) && decimal(n * 10 + d).last() as int
            == '0' as int + d,
{
    if n > 0 {
        assert((n * 10 + d) / 10 == n && (n * 10 + d) % 10 == d) by (nonlinear_arith)
            requires
                d < 10,
        ;
        assert(decimal(n * 10 + d) == decimal(n).push(digit(d)));
        assert(decimal(n * 10 + d).drop_last() =~= decimal(n));
    }
}

/// Hexadecimal digits stand for sixteen times what stands before the last,
/// and the last; a text with any other letter stands for nothing.
pub proof fn law_what_digits_stand_for(digits: Seq<char>, last: char)
    ensures
        unhex(Seq::empty()) == Some(0nat),
        hex_value(last) is None ==> unhex(digits.push(last)) is None,
        unhex(digits) is None ==> unhex(digits.push(last)) is None,
        hex_value(last) matches Some(low) ==> (unhex(digits) matches Some(high) ==> unhex(
            digits.push(last),
        ) == Some((high * 16 + low) as nat)),
{
    assert(digits.push(last).drop_last() =~= digits);
}

/// A digest's text is of sixty-four digits, its high half first; no text of
/// another length names one.
pub proof fn law_how_a_digest_is_written(digest: GraphDigest, text: Seq<char>)
    ensures
        digest_text(digest).len() == 64,
        digest_text(digest).take(32) == hex(digest.high as nat, 32),
        digest_text(digest).skip(32) == hex(digest.low as nat, 32),
        text.len() != 64 ==> digest_named(text) is None,
        digest_named(text) matches Some(named) ==> unhex(text.take(32)) is Some && unhex(
            text.skip(32),
        ) is Some,
{
    lemma_hex_len(digest.high as nat, 32);
    lemma_hex_len(digest.low as nat, 32);
    assert(digest_text(digest).take(32) =~= hex(digest.high as nat, 32));
    assert(digest_text(digest).skip(32) =~= hex(digest.low as nat, 32));
}

proof fn lemma_hex_len(n: nat, count: nat)
    ensures
        hex(n, count).len() == count,
    decreases count,
{
    if count > 0 {
        lemma_hex_len(n / 16, (count - 1) as nat);
    }
}

// ── Options and errors ─────────────────────────────────────────────────

/// A graph's policy asks for the circuit breaker exactly when it has a limit,
/// and at that limit.
pub proof fn law_which_middleware_a_policy_asks_for(graph: Graph)
    ensures
        graph.policy.loop_restart_signature_limit is None ==> policy_of(graph).len() == 0,
        graph.policy.loop_restart_signature_limit matches Some(n) ==> policy_of(graph).len() == 1
            && (policy_of(graph)[0] matches PolicyMiddleware::CircuitBreaker { limit } && limit
            == n),
{
}

/// A run's options allow as many invocations as its graph asks for, and
/// 1024 when it asks for no number; a graph that asks for none, or for
/// more than ten thousand, is refused. The engine's own limit is kept.
pub proof fn law_which_options_a_graph_asks_for(
    graph: Graph,
    max_executions: u32,
    options: Result<CoordinatorOptions, HostError>,
)
    requires
        asked_options(graph, max_executions, options),
    ensures
        options matches Ok(options) ==> options.max_executions == max_executions,
        graph.policy.max_invocations matches Some(n) ==> (options is Ok <==> 1 <= n
            <= 10_000),
        graph.policy.max_invocations matches Some(n) ==> (options matches Ok(options)
            ==> options.max_invocations == n),
        graph.policy.max_invocations is None ==> (options matches Ok(options)
            && options.max_invocations == 1024),
{
}

/// An error of a call says which it is and names what it is about.
pub proof fn law_what_a_call_s_error_says(
    digest: GraphDigest,
    total: u32,
    limit: u32,
    parent: ExecutionId,
    firing: FiringId,
    slot: String,
    scope: ScopeId,
    reason: String,
)
    ensures
        invoke_message(InvokeError::UnknownGraph(digest)) == "unknown invocation graph "@
            + digest_text(digest),
        invoke_message(InvokeError::RequestMismatch)
            == "the call site is already attached to a different invocation request"@,
        invoke_message(InvokeError::NoInheritableSandbox)
            == "the calling firing has no inheritable sandbox"@,
        invoke_message(InvokeError::CoordinatorUnavailable)
            == "the invocation coordinator is unavailable"@,
        invoke_message(InvokeError::Coordinator(reason))
            == "invocation failed before it could return a result: "@ + reason@,
        invoke_message(InvokeError::InheritedContainerMismatch { scope })
            == "the invocation inherits its caller's sandbox but declares a different container for scope "@
            + decimal(scope.0 as nat),
{
}

} // verus!
