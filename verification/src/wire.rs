//! JSON text: values read from bytes and written to them.

use crate::search::reversed;
use crate::json::{
    lemma_key_place, lemma_members, lemma_values, members_of, value_of, values_of, with_members,
    Json, JsonNumber, JsonView, NumberView,
};
use std::sync::Arc;
use vstd::prelude::*;

verus! {

/// `serde_json::Value`: a parsed JSON value.
#[verifier::external_type_specification]
#[verifier::external_body]
pub struct ExValue(serde_json::Value);

/// `serde_json::Number`: a number of a parsed JSON value.
#[verifier::external_type_specification]
#[verifier::external_body]
pub struct ExNumber(serde_json::Number);

/// `serde_json::Error`: why bytes are not JSON.
#[verifier::external_type_specification]
#[verifier::external_body]
pub struct ExError(serde_json::Error);

/// The value a parsed value holds.
pub uninterp spec fn contents(value: serde_json::Value) -> JsonView;

/// The number a parsed number holds: an unsigned integer of 64 bits, a
/// negative one, or the decimal text of any other.
pub uninterp spec fn number_held(number: serde_json::Number) -> NumberView;

/// The value bytes are the text of, when they are the text of one.
pub uninterp spec fn json_in(bytes: Seq<u8>) -> Option<JsonView>;

/// The text of a value.
pub uninterp spec fn json_text(value: JsonView) -> Seq<u8>;

/// What the parts of a parsed value hold.
pub open spec fn contents_of(values: Seq<serde_json::Value>) -> Seq<JsonView> {
    values.map_values(|value: serde_json::Value| contents(value))
}

/// What the members of a parsed object hold.
pub open spec fn members_held(members: Seq<(String, serde_json::Value)>) -> Seq<
    (Seq<char>, JsonView),
> {
    members.map_values(|member: (String, serde_json::Value)| (member.0@, contents(member.1)))
}

/// One level of a parsed value.
pub enum Opened {
    Null,
    Bool(bool),
    Number(serde_json::Number),
    Text(String),
    List(Vec<serde_json::Value>),
    Object(Vec<(String, serde_json::Value)>),
}

/// What one level of a value holds.
pub open spec fn opened(level: Opened) -> JsonView {
    match level {
        Opened::Null => JsonView::Null,
        Opened::Bool(b) => JsonView::Bool(b),
        Opened::Number(number) => JsonView::Number(number_held(number)),
        Opened::Text(text) => JsonView::Text(text@),
        Opened::List(items) => JsonView::List(contents_of(items@)),
        Opened::Object(members) => JsonView::Object(members_held(members@)),
    }
}

/// `serde_json::from_slice` at `serde_json::Value`. The contract names the
/// value the bytes are the text of, and claims that it fails exactly when
/// there is none.
#[verifier::external_body]
fn parse_value(bytes: &[u8]) -> (value: Result<serde_json::Value, serde_json::Error>)
    ensures
        match value {
            Ok(value) => json_in(bytes@) == Some(contents(value)),
            Err(_) => json_in(bytes@) is None,
        },
{
    serde_json::from_slice(bytes)
}

/// The variants of `serde_json::Value`, an object's members in the order its
/// map holds them.
#[verifier::external_body]
fn open_value(value: serde_json::Value) -> (level: Opened)
    ensures
        opened(level) == contents(value),
{
    match value {
        serde_json::Value::Null => Opened::Null,
        serde_json::Value::Bool(b) => Opened::Bool(b),
        serde_json::Value::Number(number) => Opened::Number(number),
        serde_json::Value::String(text) => Opened::Text(text),
        serde_json::Value::Array(items) => Opened::List(items),
        serde_json::Value::Object(members) => Opened::Object(members.into_iter().collect()),
    }
}

/// `serde_json::Number::as_u64`: the number, when it is an unsigned integer
/// of 64 bits.
#[verifier::external_body]
fn unsigned(number: &serde_json::Number) -> (n: Option<u64>)
    ensures
        n == (match number_held(*number) {
            NumberView::Unsigned(n) => Some(n),
            _ => None,
        }),
{
    number.as_u64()
}

/// `serde_json::Number::as_i64`: the number, when it is an integer that fits
/// in 64 bits with a sign.
#[verifier::external_body]
fn signed(number: &serde_json::Number) -> (n: Option<i64>)
    ensures
        n == (match number_held(*number) {
            NumberView::Unsigned(n) => if n <= i64::MAX {
                Some(n as i64)
            } else {
                None
            },
            NumberView::Negative(n) => Some(n),
            NumberView::Decimal(_) => None,
        }),
{
    number.as_i64()
}

/// `serde_json::Number`'s `Display`: the decimal text of a number that is no
/// integer of 64 bits.
#[verifier::external_body]
fn decimal_text(number: &serde_json::Number) -> (text: String)
    ensures
        number_held(*number) matches NumberView::Decimal(held) ==> text@ == held,
{
    number.to_string()
}

fn plain_number(number: &serde_json::Number) -> (plain: JsonNumber)
    ensures
        plain@ == number_held(*number),
{
    match unsigned(number) {
        Some(n) => JsonNumber::Unsigned(n),
        None => match signed(number) {
            Some(n) => JsonNumber::Negative(n),
            None => JsonNumber::Decimal(decimal_text(number)),
        },
    }
}

/// A parsed value as plain data.
fn plain(value: serde_json::Value) -> (json: Json)
    ensures
        json@ == contents(value),
    decreases contents(value),
{
    let ghost held = contents(value);
    match open_value(value) {
        Opened::Null => Json::Null,
        Opened::Bool(b) => Json::Bool(b),
        Opened::Number(number) => Json::Number(plain_number(&number)),
        Opened::Text(text) => Json::Text(text),
        Opened::List(items) => {
            assert(decreases_to!(held => held->List_0));
            Json::List(Arc::new(plain_items(items)))
        },
        Opened::Object(members) => {
            assert(decreases_to!(held => held->Object_0));
            Json::Object(Arc::new(plain_members(members)))
        },
    }
}

fn plain_items(items: Vec<serde_json::Value>) -> (plain: Vec<Json>)
    ensures
        values_of(plain@) == contents_of(items@),
    decreases contents_of(items@),
{
    let ghost held = contents_of(items@);
    let ghost all = items@;
    let mut left = items;
    let mut turned: Vec<Json> = Vec::new();
    while left.len() > 0
        invariant
            all == items@,
            held == contents_of(all),
            left@.len() + turned@.len() == all.len(),
            left@ == all.take(left@.len() as int),
            forall|i: int|
                0 <= i < turned@.len() ==> (#[trigger] turned@[i])@ == held[all.len() - 1 - i],
        decreases left.len(),
    {
        let ghost at = left@.len() - 1;
        match left.pop() {
            Some(item) => {
                assert(item == all[at]);
                assert(held[at] == contents(item));
                assert(decreases_to!(held => held[at]));
                turned.push(self::plain(item));
            },
            None => {},
        }
    }
    let plain = reversed(turned);
    proof {
        lemma_values(plain@);
        assert(values_of(plain@) =~= held);
    }
    plain
}

fn plain_members(members: Vec<(String, serde_json::Value)>) -> (plain: Vec<(String, Json)>)
    ensures
        members_of(plain@) == members_held(members@),
    decreases members_held(members@),
{
    let ghost held = members_held(members@);
    let ghost all = members@;
    let mut left = members;
    let mut turned: Vec<(String, Json)> = Vec::new();
    while left.len() > 0
        invariant
            all == members@,
            held == members_held(all),
            left@.len() + turned@.len() == all.len(),
            left@ == all.take(left@.len() as int),
            forall|i: int|
                0 <= i < turned@.len() ==> ((#[trigger] turned@[i]).0@, turned@[i].1@)
                    == held[all.len() - 1 - i],
        decreases left.len(),
    {
        let ghost at = left@.len() - 1;
        match left.pop() {
            Some((key, value)) => {
                assert(all[at] == (key, value));
                assert(held[at] == (key@, contents(value)));
                assert(decreases_to!(held => held[at]));
                assert(decreases_to!(held[at] => held[at].1));
                turned.push((key, self::plain(value)));
            },
            None => {},
        }
    }
    let plain = reversed(turned);
    proof {
        lemma_members(plain@);
        assert(members_of(plain@) =~= held);
    }
    plain
}

/// Read bytes as the text of a JSON value.
pub fn read_json(bytes: &[u8]) -> (json: Option<Json>)
    ensures
        match json {
            Some(json) => json_in(bytes@) == Some(json@),
            None => json_in(bytes@) is None,
        },
{
    match parse_value(bytes) {
        Ok(value) => Some(plain(value)),
        Err(_) => None,
    }
}

// ── Writing ────────────────────────────────────────────────────────────

/// The number a decimal text is the text of, when it is one's.
pub uninterp spec fn number_in(text: Seq<char>) -> Option<NumberView>;

/// `serde_json::Number::from` at `u64`: that number.
#[verifier::external_body]
fn whole(n: u64) -> (number: serde_json::Number)
    ensures
        number_held(number) == NumberView::Unsigned(n),
{
    serde_json::Number::from(n)
}

/// `serde_json::Number::from` at `i64`: that number, held as unsigned when
/// it is not below zero.
#[verifier::external_body]
fn integer(n: i64) -> (number: serde_json::Number)
    ensures
        number_held(number) == (if n < 0 {
            NumberView::Negative(n)
        } else {
            NumberView::Unsigned(n as u64)
        }),
{
    serde_json::Number::from(n)
}

/// `serde_json::from_str` at `serde_json::Number`. The contract names the
/// number the text is the text of.
#[verifier::external_body]
fn parse_number(text: &str) -> (number: Result<serde_json::Number, serde_json::Error>)
    ensures
        match number {
            Ok(number) => number_in(text@) == Some(number_held(number)),
            Err(_) => number_in(text@) is None,
        },
{
    serde_json::from_str(text)
}

/// The variants of `serde_json::Value`, built. An object's map takes the
/// members in order; one under a key that is there already replaces it.
#[verifier::external_body]
fn close_value(level: Opened) -> (value: serde_json::Value)
    ensures
        contents(value) == (match level {
            Opened::Object(members) => JsonView::Object(
                with_members(Seq::empty(), members_held(members@)),
            ),
            _ => opened(level),
        }),
{
    match level {
        Opened::Null => serde_json::Value::Null,
        Opened::Bool(b) => serde_json::Value::Bool(b),
        Opened::Number(number) => serde_json::Value::Number(number),
        Opened::Text(text) => serde_json::Value::String(text),
        Opened::List(items) => serde_json::Value::Array(items),
        Opened::Object(members) => serde_json::Value::Object(members.into_iter().collect()),
    }
}

/// A value that is read back as it was written: every number an integer of
/// 64 bits or a decimal whose text is read as the decimal of that very text,
/// no object with a key twice, and at most `depth` lists and objects inside
/// one another.
pub open spec fn readable(value: JsonView, depth: nat) -> bool
    decreases value,
{
    match value {
        JsonView::Number(NumberView::Negative(n)) => n < 0,
        JsonView::Number(NumberView::Decimal(text)) => number_in(text) == Some(
            NumberView::Decimal(text),
        ),
        JsonView::List(items) => depth > 0 && forall|i: int|
            0 <= i < items.len() ==> readable(#[trigger] items[i], (depth - 1) as nat),
        JsonView::Object(members) => {
            &&& depth > 0
            &&& forall|i: int, j: int|
                0 <= i < j < members.len() ==> (#[trigger] members[i]).0 != (
                #[trigger] members[j]).0
            &&& forall|i: int|
                0 <= i < members.len() ==> readable((#[trigger] members[i]).1, (depth - 1) as nat)
        },
        _ => true,
    }
}

/// How many lists and objects may be inside one another for a text to be
/// read.
pub const NESTING: u32 = 127;

/// The byte that ends a line.
pub const NEWLINE: u8 = 10;

/// `serde_json::to_vec` of a `serde_json::Value`. The contract names the
/// text, and claims of it that it holds no newline and that reading it gives
/// the value back when the value is one that is read back. A decimal is
/// written as `Display` writes it and read as it is read on its own, so one
/// whose text gives that text again comes back as it was.
#[verifier::external_body]
fn render_value(value: &serde_json::Value) -> (bytes: Result<Vec<u8>, serde_json::Error>)
    ensures
        bytes matches Ok(bytes) && bytes@ == json_text(contents(*value)) && !bytes@.contains(NEWLINE)
            && (readable(contents(*value), NESTING as nat) ==> json_in(bytes@) == Some(
            contents(*value),
        )),
{
    serde_json::to_vec(value)
}

/// The number a written number is.
pub open spec fn written_number(number: NumberView) -> Option<NumberView> {
    match number {
        NumberView::Unsigned(n) => Some(number),
        NumberView::Negative(n) => if n < 0 {
            Some(number)
        } else {
            Some(NumberView::Unsigned(n as u64))
        },
        NumberView::Decimal(text) => number_in(text),
    }
}

/// Whether every number of a value is one: a decimal's text may be of none.
pub open spec fn writable(value: JsonView) -> bool
    decreases value,
{
    match value {
        JsonView::Number(number) => written_number(number) is Some,
        JsonView::List(items) => forall|i: int|
            0 <= i < items.len() ==> writable(#[trigger] items[i]),
        JsonView::Object(members) => forall|i: int|
            0 <= i < members.len() ==> writable((#[trigger] members[i]).1),
        _ => true,
    }
}

/// The value that is written for a value: its numbers as they are held, and
/// of members under one key the last.
pub open spec fn written(value: JsonView) -> JsonView
    decreases value,
{
    match value {
        JsonView::Number(number) => JsonView::Number(written_number(number)->0),
        JsonView::List(items) => JsonView::List(written_items(items)),
        JsonView::Object(members) => JsonView::Object(
            with_members(Seq::empty(), written_members(members)),
        ),
        _ => value,
    }
}

/// The values that are written for values, in order.
pub open spec fn written_items(items: Seq<JsonView>) -> Seq<JsonView>
    decreases items,
{
    if items.len() == 0 {
        Seq::empty()
    } else {
        written_items(items.drop_last()).push(written(items.last()))
    }
}

/// The members that are written for members, in order.
pub open spec fn written_members(members: Seq<(Seq<char>, JsonView)>) -> Seq<(Seq<char>, JsonView)>
    decreases members,
{
    if members.len() == 0 {
        Seq::empty()
    } else {
        written_members(members.drop_last()).push((members.last().0, written(members.last().1)))
    }
}

proof fn lemma_written_items(items: Seq<JsonView>)
    ensures
        written_items(items).len() == items.len(),
        forall|i: int| 0 <= i < items.len() ==> #[trigger] written_items(items)[i] == written(items[i]),
    decreases items.len(),
{
    if items.len() > 0 {
        let rest = items.drop_last();
        lemma_written_items(rest);
        assert forall|i: int| 0 <= i < items.len() implies #[trigger] written_items(items)[i]
            == written(items[i]) by {
            if i < rest.len() {
                assert(written_items(items)[i] == written_items(rest)[i]);
                assert(rest[i] == items[i]);
            }
        }
    }
}

proof fn lemma_written_members(members: Seq<(Seq<char>, JsonView)>)
    ensures
        written_members(members).len() == members.len(),
        forall|i: int|
            0 <= i < members.len() ==> #[trigger] written_members(members)[i] == (
                members[i].0,
                written(members[i].1),
            ),
    decreases members.len(),
{
    if members.len() > 0 {
        let rest = members.drop_last();
        lemma_written_members(rest);
        assert forall|i: int| 0 <= i < members.len() implies #[trigger] written_members(members)[i]
            == (members[i].0, written(members[i].1)) by {
            if i < rest.len() {
                assert(written_members(members)[i] == written_members(rest)[i]);
                assert(rest[i] == members[i]);
            }
        }
    }
}

fn held_number(number: &JsonNumber) -> (held: Option<serde_json::Number>)
    ensures
        match held {
            Some(held) => written_number(number@) == Some(number_held(held)),
            None => written_number(number@) is None,
        },
{
    match number {
        JsonNumber::Unsigned(n) => Some(whole(*n)),
        JsonNumber::Negative(n) => Some(integer(*n)),
        JsonNumber::Decimal(text) => match parse_number(text.as_str()) {
            Ok(number) => Some(number),
            Err(_) => None,
        },
    }
}

/// Plain data as a value to be written.
fn held(json: &Json) -> (value: Option<serde_json::Value>)
    ensures
        value is Some <==> writable(json@),
        value matches Some(value) ==> contents(value) == written(json@),
    decreases json,
{
    match json {
        Json::Null => Some(close_value(Opened::Null)),
        Json::Bool(b) => Some(close_value(Opened::Bool(*b))),
        Json::Number(number) => match held_number(number) {
            Some(number) => Some(close_value(Opened::Number(number))),
            None => None,
        },
        Json::Text(text) => Some(close_value(Opened::Text(text.clone()))),
        Json::List(items) => {
            proof {
                lemma_values(items@);
            }
            let mut values: Vec<serde_json::Value> = Vec::new();
            let mut i: usize = 0;
            while i < items.len()
                invariant
                    i <= items.len(),
                    *json == Json::List(*items),
                    values@.len() == i,
                    values_of(items@).len() == items@.len(),
                    forall|j: int|
                        0 <= j < items@.len() ==> #[trigger] values_of(items@)[j] == value_of(
                            items@[j],
                        ),
                    forall|j: int| 0 <= j < i ==> writable(#[trigger] values_of(items@)[j]),
                    forall|j: int|
                        0 <= j < i ==> contents(#[trigger] values@[j]) == written(
                            values_of(items@)[j],
                        ),
                decreases items.len() - i,
            {
                assert(decreases_to!(json->List_0@ => json->List_0@[i as int]));
                assert(decreases_to!(*json => json->List_0@));
                match self::held(&items[i]) {
                    Some(value) => values.push(value),
                    None => {
                        assert(!writable(values_of(items@)[i as int]));
                        return None;
                    },
                }
                i = i + 1;
            }
            let level = Opened::List(values);
            proof {
                lemma_written_items(values_of(items@));
                assert(contents_of(values@) =~= written_items(values_of(items@)));
            }
            Some(close_value(level))
        },
        Json::Object(members) => {
            proof {
                lemma_members(members@);
            }
            let mut values: Vec<(String, serde_json::Value)> = Vec::new();
            let mut i: usize = 0;
            while i < members.len()
                invariant
                    i <= members.len(),
                    *json == Json::Object(*members),
                    values@.len() == i,
                    members_of(members@).len() == members@.len(),
                    forall|j: int|
                        0 <= j < members@.len() ==> #[trigger] members_of(members@)[j] == (
                            members@[j].0@,
                            value_of(members@[j].1),
                        ),
                    forall|j: int| 0 <= j < i ==> writable((#[trigger] members_of(members@)[j]).1),
                    forall|j: int|
                        0 <= j < i ==> ((#[trigger] values@[j]).0@, contents(values@[j].1)) == (
                            members_of(members@)[j].0,
                            written(members_of(members@)[j].1),
                        ),
                decreases members.len() - i,
            {
                assert(decreases_to!(json->Object_0@ => json->Object_0@[i as int]));
                assert(decreases_to!(json->Object_0@[i as int] => json->Object_0@[i as int].1));
                assert(decreases_to!(*json => json->Object_0@));
                match self::held(&members[i].1) {
                    Some(value) => values.push((members[i].0.clone(), value)),
                    None => {
                        assert(!writable(members_of(members@)[i as int].1));
                        return None;
                    },
                }
                i = i + 1;
            }
            let level = Opened::Object(values);
            proof {
                lemma_written_members(members_of(members@));
                assert(members_held(values@) =~= written_members(members_of(members@)));
            }
            Some(close_value(level))
        },
    }
}

/// Write a JSON value as text; nothing when a decimal in it is no number.
/// The text holds no newline, and reading it gives the written value back
/// when that is one that is read back.
pub fn write_json(json: &Json) -> (bytes: Option<Vec<u8>>)
    ensures
        bytes is Some <==> writable(json@),
        bytes matches Some(bytes) ==> bytes@ == json_text(written(json@)) && !bytes@.contains(
            NEWLINE,
        ) && (readable(written(json@), NESTING as nat) ==> json_in(bytes@) == Some(written(json@))),
{
    match held(json) {
        Some(value) => match render_value(&value) {
            Ok(bytes) => Some(bytes),
            Err(_) => None,
        },
        None => None,
    }
}

proof fn lemma_distinct_members(members: Seq<(Seq<char>, JsonView)>)
    requires
        forall|i: int, j: int|
            0 <= i < j < members.len() ==> (#[trigger] members[i]).0 != (#[trigger] members[j]).0,
    ensures
        with_members(Seq::empty(), members) == members,
    decreases members.len(),
{
    if members.len() > 0 {
        let rest = members.drop_last();
        assert forall|i: int, j: int| 0 <= i < j < rest.len() implies (#[trigger] rest[i]).0 != (
        #[trigger] rest[j]).0 by {
            assert(rest[i] == members[i] && rest[j] == members[j]);
        }
        lemma_distinct_members(rest);
        assert forall|j: int| 0 <= j < rest.len() implies (#[trigger] rest[j]).0
            != members.last().0 by {
            assert(rest[j] == members[j]);
            assert(members[j].0 != members[members.len() - 1].0);
        }
        lemma_key_place(rest, members.last().0, rest.len() as int);
        assert(rest.push(members.last()) =~= members);
    } else {
        assert(members =~= Seq::empty());
    }
}

/// A value that is read back is written as it is.
pub proof fn law_readable_is_written_as_it_is(value: JsonView, depth: nat)
    requires
        readable(value, depth),
    ensures
        writable(value),
        written(value) == value,
    decreases value,
{
    match value {
        JsonView::List(items) => {
            assert forall|i: int| 0 <= i < items.len() implies writable(#[trigger] items[i])
                && written(items[i]) == items[i] by {
                law_readable_is_written_as_it_is(items[i], (depth - 1) as nat);
            }
            lemma_written_items(items);
            assert(written_items(items) =~= items);
        },
        JsonView::Object(members) => {
            assert forall|i: int| 0 <= i < members.len() implies writable(
                (#[trigger] members[i]).1,
            ) && written(members[i].1) == members[i].1 by {
                law_readable_is_written_as_it_is(members[i].1, (depth - 1) as nat);
            }
            lemma_written_members(members);
            assert(written_members(members) =~= members);
            lemma_distinct_members(members);
        },
        _ => {},
    }
}

} // verus!
