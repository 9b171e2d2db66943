//! JSON values as plain data: what a step reports, a hook notes or a caller
//! declares. Lists and objects are shared, so a value is copied without
//! copying its parts.

use std::sync::Arc;
use vstd::prelude::*;

verus! {

/// `Arc::clone`: another handle on the same shared value. The contract
/// claims that what the new handle points at is what the old one points at.
#[verifier::external_body]
pub(crate) fn share<T>(shared: &Arc<T>) -> (copy: Arc<T>)
    ensures
        copy == *shared,
{
    Arc::clone(shared)
}

/// A JSON number. A number that is not an integer of 64 bits is held by its
/// decimal text.
#[derive(Debug)]
pub enum JsonNumber {
    Unsigned(u64),
    Negative(i64),
    Decimal(String),
}

/// A JSON value. An object keeps its members in the order they were written.
#[derive(Debug)]
pub enum Json {
    Null,
    Bool(bool),
    Number(JsonNumber),
    Text(String),
    List(Arc<Vec<Json>>),
    Object(Arc<Vec<(String, Json)>>),
}

/// What a JSON number is, apart from how it is stored.
pub enum NumberView {
    Unsigned(u64),
    Negative(i64),
    Decimal(Seq<char>),
}

/// What a JSON value is, apart from how it is stored.
pub enum JsonView {
    Null,
    Bool(bool),
    Number(NumberView),
    Text(Seq<char>),
    List(Seq<JsonView>),
    Object(Seq<(Seq<char>, JsonView)>),
}

impl View for JsonNumber {
    type V = NumberView;

    open spec fn view(&self) -> NumberView {
        match self {
            JsonNumber::Unsigned(n) => NumberView::Unsigned(*n),
            JsonNumber::Negative(n) => NumberView::Negative(*n),
            JsonNumber::Decimal(text) => NumberView::Decimal(text@),
        }
    }
}

/// The value a JSON tree stands for.
pub open spec fn value_of(json: Json) -> JsonView
    decreases json,
{
    match json {
        Json::Null => JsonView::Null,
        Json::Bool(b) => JsonView::Bool(b),
        Json::Number(n) => JsonView::Number(n@),
        Json::Text(text) => JsonView::Text(text@),
        Json::List(items) => JsonView::List(values_of(items@)),
        Json::Object(members) => JsonView::Object(members_of(members@)),
    }
}

/// The values a sequence of JSON trees stands for, in order.
pub open spec fn values_of(items: Seq<Json>) -> Seq<JsonView>
    decreases items,
{
    if items.len() == 0 {
        Seq::empty()
    } else {
        values_of(items.drop_last()).push(value_of(items.last()))
    }
}

/// The members a sequence of keyed JSON trees stands for, in order.
pub open spec fn members_of(members: Seq<(String, Json)>) -> Seq<(Seq<char>, JsonView)>
    decreases members,
{
    if members.len() == 0 {
        Seq::empty()
    } else {
        members_of(members.drop_last()).push((members.last().0@, value_of(members.last().1)))
    }
}

impl View for Json {
    type V = JsonView;

    open spec fn view(&self) -> JsonView {
        value_of(*self)
    }
}

impl Clone for JsonNumber {
    fn clone(&self) -> (copy: JsonNumber)
        ensures
            copy == *self,
    {
        match self {
            JsonNumber::Unsigned(n) => JsonNumber::Unsigned(*n),
            JsonNumber::Negative(n) => JsonNumber::Negative(*n),
            JsonNumber::Decimal(text) => JsonNumber::Decimal(text.clone()),
        }
    }
}

impl Clone for Json {
    fn clone(&self) -> (copy: Json)
        ensures
            copy == *self,
    {
        match self {
            Json::Null => Json::Null,
            Json::Bool(b) => Json::Bool(*b),
            Json::Number(n) => Json::Number(n.clone()),
            Json::Text(text) => Json::Text(text.clone()),
            Json::List(items) => Json::List(share(items)),
            Json::Object(members) => Json::Object(share(members)),
        }
    }
}

/// The first member under a key.
pub open spec fn first_member(members: Seq<(String, Json)>, key: Seq<char>) -> Option<Json>
    decreases members.len(),
{
    if members.len() == 0 {
        None
    } else if members.first().0@ == key {
        Some(members.first().1)
    } else {
        first_member(members.drop_first(), key)
    }
}

/// The member of an object under a key; nothing for any other value.
pub open spec fn member_at(json: Json, key: Seq<char>) -> Option<Json> {
    match json {
        Json::Object(members) => first_member(members@, key),
        _ => None,
    }
}

/// A field of a record that is written as an object by name, or as a list of
/// exactly `count` items in field order.
pub open spec fn field_at(json: Json, name: Seq<char>, index: int, count: int) -> Option<Json> {
    match json {
        Json::Object(members) => first_member(members@, name),
        Json::List(items) => if items@.len() == count {
            Some(items@[index])
        } else {
            None
        },
        _ => None,
    }
}

/// The unsigned integer a value is, when it is one of 64 bits.
pub open spec fn u64_in(json: Json) -> Option<u64> {
    match json {
        Json::Number(JsonNumber::Unsigned(n)) => Some(n),
        _ => None,
    }
}

/// The unsigned integer a value is, when it is one of 32 bits.
pub open spec fn u32_in(json: Json) -> Option<u32> {
    match json {
        Json::Number(JsonNumber::Unsigned(n)) => if n <= u32::MAX {
            Some(n as u32)
        } else {
            None
        },
        _ => None,
    }
}

/// The text a value is.
pub open spec fn text_in(json: Json) -> Option<String> {
    match json {
        Json::Text(text) => Some(text),
        _ => None,
    }
}

proof fn lemma_member_found(members: Seq<(String, Json)>, key: Seq<char>, i: int)
    requires
        0 <= i < members.len(),
        members[i].0@ == key,
        forall|j: int| 0 <= j < i ==> (#[trigger] members[j]).0@ != key,
    ensures
        first_member(members, key) == Some(members[i].1),
    decreases members.len(),
{
    if i > 0 {
        assert(members[0].0@ != key);
        let rest = members.drop_first();
        assert forall|j: int| 0 <= j < i - 1 implies (#[trigger] rest[j]).0@ != key by {
            assert(rest[j] == members[j + 1]);
        }
        lemma_member_found(rest, key, i - 1);
    }
}

proof fn lemma_member_absent(members: Seq<(String, Json)>, key: Seq<char>)
    requires
        forall|j: int| 0 <= j < members.len() ==> (#[trigger] members[j]).0@ != key,
    ensures
        first_member(members, key) is None,
    decreases members.len(),
{
    if members.len() > 0 {
        assert(members[0].0@ != key);
        let rest = members.drop_first();
        assert forall|j: int| 0 <= j < rest.len() implies (#[trigger] rest[j]).0@ != key by {
            assert(rest[j] == members[j + 1]);
        }
        lemma_member_absent(rest, key);
    }
}

/// Whether a text reads as `other`.
pub(crate) fn text_is(text: &String, other: &str) -> (same: bool)
    ensures
        same == (text@ == other@),
{
    let other = other.to_owned();
    *text == other
}

fn find_member<'a>(members: &'a Vec<(String, Json)>, key: &str) -> (found: Option<&'a Json>)
    ensures
        found == (match first_member(members@, key@) {
            Some(value) => Some(&value),
            None => None,
        }),
{
    let mut i: usize = 0;
    while i < members.len()
        invariant
            i <= members.len(),
            forall|j: int| 0 <= j < i ==> (#[trigger] members@[j]).0@ != key@,
        decreases members.len() - i,
    {
        if text_is(&members[i].0, key) {
            proof {
                lemma_member_found(members@, key@, i as int);
            }
            return Some(&members[i].1);
        }
        i = i + 1;
    }
    proof {
        lemma_member_absent(members@, key@);
    }
    None
}

impl Json {
    /// The member of an object under a key.
    pub fn get(&self, key: &str) -> (found: Option<&Json>)
        ensures
            found == (match member_at(*self, key@) {
                Some(value) => Some(&value),
                None => None,
            }),
    {
        match self {
            Json::Object(members) => find_member(members, key),
            _ => None,
        }
    }

    /// A field of a record written as an object or as a list.
    pub fn field(&self, name: &str, index: usize, count: usize) -> (found: Option<&Json>)
        requires
            index < count,
        ensures
            found == (match field_at(*self, name@, index as int, count as int) {
                Some(value) => Some(&value),
                None => None,
            }),
    {
        match self {
            Json::Object(members) => find_member(members, name),
            Json::List(items) => if items.len() == count {
                Some(&items[index])
            } else {
                None
            },
            _ => None,
        }
    }

    /// The unsigned integer of 64 bits the value is.
    pub fn as_u64(&self) -> (n: Option<u64>)
        ensures
            n == u64_in(*self),
    {
        match self {
            Json::Number(JsonNumber::Unsigned(n)) => Some(*n),
            _ => None,
        }
    }

    /// The unsigned integer of 32 bits the value is.
    pub fn as_u32(&self) -> (n: Option<u32>)
        ensures
            n == u32_in(*self),
    {
        match self {
            Json::Number(JsonNumber::Unsigned(n)) => if *n <= 0xffff_ffff {
                Some(*n as u32)
            } else {
                None
            },
            _ => None,
        }
    }

    /// The text the value is.
    pub fn as_text(&self) -> (text: Option<&String>)
        ensures
            text == (match text_in(*self) {
                Some(text) => Some(&text),
                None => None,
            }),
    {
        match self {
            Json::Text(text) => Some(text),
            _ => None,
        }
    }
}

/// Members with one under a key: in the place of the member that was there,
/// or else at the end.
pub open spec fn with_member(
    members: Seq<(Seq<char>, JsonView)>,
    key: Seq<char>,
    value: JsonView,
) -> Seq<(Seq<char>, JsonView)> {
    let at = key_place(members, key);
    if at < members.len() {
        members.update(at, (key, value))
    } else {
        members.push((key, value))
    }
}

/// Members put one after another among those there are.
pub open spec fn with_members(
    members: Seq<(Seq<char>, JsonView)>,
    more: Seq<(Seq<char>, JsonView)>,
) -> Seq<(Seq<char>, JsonView)>
    decreases more.len(),
{
    if more.len() == 0 {
        members
    } else {
        with_member(with_members(members, more.drop_last()), more.last().0, more.last().1)
    }
}

/// Put a member among others, replacing the one under its key.
pub fn put_member(members: &mut Vec<(String, Json)>, key: String, value: Json)
    ensures
        members_of(final(members)@) == with_member(members_of(old(members)@), key@, value@),
{
    let at = place_of_key(members, &key);
    proof {
        lemma_members(members@);
    }
    let ghost before = members@;
    if at < members.len() {
        members[at] = (key, value);
        proof {
            lemma_members(members@);
            assert(members@ == before.update(at as int, (key, value)));
        }
    } else {
        members.push((key, value));
        proof {
            lemma_members(members@);
        }
    }
    assert(members_of(members@) =~= with_member(members_of(before), key@, value@));
}

// ── Equality ───────────────────────────────────────────────────────────

/// The first place of a key among members: their count when there is none.
pub open spec fn key_place(members: Seq<(Seq<char>, JsonView)>, key: Seq<char>) -> int
    decreases members.len(),
{
    if members.len() == 0 || members.first().0 == key {
        0
    } else {
        1 + key_place(members.drop_first(), key)
    }
}

/// Whether a decimal text is zero's, of either sign.
pub open spec fn zero_text(text: Seq<char>) -> bool {
    text == "0.0"@ || text == "-0.0"@
}

/// Whether two JSON numbers are equal: the two zeros are, though their texts
/// differ.
pub open spec fn same_quantity(a: NumberView, b: NumberView) -> bool {
    match (a, b) {
        (NumberView::Decimal(a), NumberView::Decimal(b)) => a == b || (zero_text(a) && zero_text(
            b,
        )),
        _ => a == b,
    }
}

/// Whether two JSON values are equal. Objects are equal when they have as
/// many members and each member of one has an equal member under its key in
/// the other, in whatever order.
pub open spec fn same_value(a: JsonView, b: JsonView) -> bool
    decreases a,
{
    match (a, b) {
        (JsonView::Null, JsonView::Null) => true,
        (JsonView::Bool(a), JsonView::Bool(b)) => a == b,
        (JsonView::Number(a), JsonView::Number(b)) => same_quantity(a, b),
        (JsonView::Text(a), JsonView::Text(b)) => a == b,
        (JsonView::List(a), JsonView::List(b)) => {
            &&& a.len() == b.len()
            &&& forall|i: int| 0 <= i < a.len() ==> same_value(#[trigger] a[i], b[i])
        },
        (JsonView::Object(a), JsonView::Object(b)) => {
            &&& a.len() == b.len()
            &&& forall|i: int|
                0 <= i < a.len() ==> {
                    let at = key_place(b, (#[trigger] a[i]).0);
                    at < b.len() && same_value(a[i].1, b[at].1)
                }
        },
        _ => false,
    }
}

pub(crate) proof fn lemma_values(items: Seq<Json>)
    ensures
        values_of(items).len() == items.len(),
        forall|i: int| 0 <= i < items.len() ==> #[trigger] values_of(items)[i] == value_of(items[i]),
    decreases items,
{
    if items.len() > 0 {
        let rest = items.drop_last();
        lemma_values(rest);
        assert forall|i: int| 0 <= i < items.len() implies #[trigger] values_of(items)[i]
            == value_of(items[i]) by {
            if i < rest.len() {
                assert(values_of(items)[i] == values_of(rest)[i]);
                assert(rest[i] == items[i]);
            }
        }
    }
}

/// What each member of an object stands for.
pub(crate) proof fn lemma_members(members: Seq<(String, Json)>)
    ensures
        members_of(members).len() == members.len(),
        forall|i: int|
            0 <= i < members.len() ==> #[trigger] members_of(members)[i] == (
                members[i].0@,
                value_of(members[i].1),
            ),
    decreases members,
{
    if members.len() > 0 {
        let rest = members.drop_last();
        lemma_members(rest);
        assert forall|i: int| 0 <= i < members.len() implies #[trigger] members_of(members)[i] == (
            members[i].0@,
            value_of(members[i].1),
        ) by {
            if i < rest.len() {
                assert(members_of(members)[i] == members_of(rest)[i]);
                assert(rest[i] == members[i]);
            }
        }
    }
}

pub(crate) proof fn lemma_key_place(members: Seq<(Seq<char>, JsonView)>, key: Seq<char>, i: int)
    requires
        0 <= i <= members.len(),
        forall|j: int| 0 <= j < i ==> (#[trigger] members[j]).0 != key,
        i < members.len() ==> members[i].0 == key,
    ensures
        key_place(members, key) == i,
    decreases members.len(),
{
    if members.len() > 0 && i > 0 {
        assert(members[0].0 != key);
        let rest = members.drop_first();
        assert forall|j: int| 0 <= j < i - 1 implies (#[trigger] rest[j]).0 != key by {
            assert(rest[j] == members[j + 1]);
        }
        lemma_key_place(rest, key, i - 1);
    }
}

/// The member under a key, of a value that is an object.
pub open spec fn value_member(value: JsonView, key: Seq<char>) -> Option<JsonView> {
    match value {
        JsonView::Object(members) => if key_place(members, key) < members.len() {
            Some(members[key_place(members, key)].1)
        } else {
            None
        },
        _ => None,
    }
}

proof fn lemma_key_place_is(members: Seq<(Seq<char>, JsonView)>, key: Seq<char>)
    ensures
        0 <= key_place(members, key) <= members.len(),
        forall|j: int| 0 <= j < key_place(members, key) ==> (#[trigger] members[j]).0 != key,
        key_place(members, key) < members.len() ==> members[key_place(members, key)].0 == key,
    decreases members.len(),
{
    if members.len() > 0 && members.first().0 != key {
        let rest = members.drop_first();
        lemma_key_place_is(rest, key);
        assert forall|j: int| 0 <= j < key_place(members, key) implies (#[trigger] members[j]).0
            != key by {
            if j > 0 {
                assert(rest[j - 1] == members[j]);
            }
        }
        if key_place(rest, key) < rest.len() {
            assert(rest[key_place(rest, key)] == members[key_place(rest, key) + 1]);
        }
    }
}

/// What a member lookup finds, apart from how it is stored.
pub(crate) proof fn lemma_member_value(json: Json, key: Seq<char>)
    ensures
        match member_at(json, key) {
            Some(found) => value_member(json@, key) == Some(found@),
            None => value_member(json@, key) is None,
        },
{
    if let Json::Object(members) = json {
        let all = members_of(members@);
        let at = key_place(all, key);
        lemma_members(members@);
        lemma_key_place_is(all, key);
        assert forall|j: int| 0 <= j < at implies (#[trigger] members@[j]).0@ != key by {
            assert(all[j].0 != key);
        }
        if at < all.len() {
            assert(all[at] == (members@[at].0@, value_of(members@[at].1)));
            lemma_member_found(members@, key, at);
        } else {
            lemma_member_absent(members@, key);
        }
    }
}

fn is_zero(text: &String) -> (zero: bool)
    ensures
        zero == zero_text(text@),
{
    text_is(text, "0.0") || text_is(text, "-0.0")
}

fn same_number(a: &JsonNumber, b: &JsonNumber) -> (same: bool)
    ensures
        same == same_quantity(a@, b@),
{
    match (a, b) {
        (JsonNumber::Unsigned(a), JsonNumber::Unsigned(b)) => *a == *b,
        (JsonNumber::Negative(a), JsonNumber::Negative(b)) => *a == *b,
        (JsonNumber::Decimal(a), JsonNumber::Decimal(b)) => *a == *b || (is_zero(a) && is_zero(b)),
        _ => false,
    }
}

/// The place of a key among members.
fn place_of_key(members: &Vec<(String, Json)>, key: &String) -> (at: usize)
    ensures
        at == key_place(members_of(members@), key@),
        at <= members@.len(),
{
    proof {
        lemma_members(members@);
    }
    let mut i: usize = 0;
    while i < members.len() && members[i].0 != *key
        invariant
            i <= members.len(),
            members_of(members@).len() == members@.len(),
            forall|j: int|
                0 <= j < members@.len() ==> #[trigger] members_of(members@)[j] == (
                    members@[j].0@,
                    value_of(members@[j].1),
                ),
            forall|j: int| 0 <= j < i ==> (#[trigger] members_of(members@)[j]).0 != key@,
        decreases members.len() - i,
    {
        i = i + 1;
    }
    proof {
        lemma_key_place(members_of(members@), key@, i as int);
    }
    i
}

impl Json {
    /// Whether two values are equal.
    pub fn same(&self, other: &Json) -> (same: bool)
        ensures
            same == same_value(self@, other@),
        decreases self,
    {
        match (self, other) {
            (Json::Null, Json::Null) => true,
            (Json::Bool(a), Json::Bool(b)) => *a == *b,
            (Json::Number(a), Json::Number(b)) => same_number(a, b),
            (Json::Text(a), Json::Text(b)) => *a == *b,
            (Json::List(a), Json::List(b)) => {
                proof {
                    lemma_values(a@);
                    lemma_values(b@);
                }
                if a.len() != b.len() {
                    return false;
                }
                let mut i: usize = 0;
                while i < a.len()
                    invariant
                        i <= a.len(),
                        a.len() == b.len(),
                        *self == Json::List(*a),
                        *other == Json::List(*b),
                        values_of(a@).len() == a@.len(),
                        values_of(b@).len() == b@.len(),
                        forall|j: int|
                            0 <= j < a@.len() ==> #[trigger] values_of(a@)[j] == value_of(a@[j]),
                        forall|j: int|
                            0 <= j < b@.len() ==> #[trigger] values_of(b@)[j] == value_of(b@[j]),
                        forall|j: int|
                            0 <= j < i ==> same_value(
                                #[trigger] values_of(a@)[j],
                                values_of(b@)[j],
                            ),
                    decreases a.len() - i,
                {
                    assert(decreases_to!(self->List_0@ => self->List_0@[i as int]));
                    assert(decreases_to!(*self => self->List_0@));
                    if !a[i].same(&b[i]) {
                        assert(!same_value(values_of(a@)[i as int], values_of(b@)[i as int]));
                        return false;
                    }
                    i = i + 1;
                }
                true
            },
            (Json::Object(a), Json::Object(b)) => {
                proof {
                    lemma_members(a@);
                    lemma_members(b@);
                }
                if a.len() != b.len() {
                    return false;
                }
                let mut i: usize = 0;
                while i < a.len()
                    invariant
                        i <= a.len(),
                        a.len() == b.len(),
                        *self == Json::Object(*a),
                        *other == Json::Object(*b),
                        members_of(a@).len() == a@.len(),
                        members_of(b@).len() == b@.len(),
                        forall|j: int|
                            0 <= j < a@.len() ==> #[trigger] members_of(a@)[j] == (
                                a@[j].0@,
                                value_of(a@[j].1),
                            ),
                        forall|j: int|
                            0 <= j < b@.len() ==> #[trigger] members_of(b@)[j] == (
                                b@[j].0@,
                                value_of(b@[j].1),
                            ),
                        forall|j: int|
                            0 <= j < i ==> {
                                let at = key_place(
                                    members_of(b@),
                                    (#[trigger] members_of(a@)[j]).0,
                                );
                                at < b@.len() && same_value(
                                    members_of(a@)[j].1,
                                    members_of(b@)[at].1,
                                )
                            },
                    decreases a.len() - i,
                {
                    let at = place_of_key(b, &a[i].0);
                    assert(members_of(a@)[i as int] == (a@[i as int].0@, value_of(a@[i as int].1)));
                    if at >= b.len() {
                        return false;
                    }
                    assert(decreases_to!(self->Object_0@ => self->Object_0@[i as int]));
                    assert(decreases_to!(self->Object_0@[i as int] => self->Object_0@[i as int].1));
                    assert(decreases_to!(*self => self->Object_0@));
                    if !a[i].1.same(&b[at].1) {
                        return false;
                    }
                    i = i + 1;
                }
                true
            },
            _ => false,
        }
    }
}

/// Whether two lists of named values are the same, in whatever order.
pub open spec fn same_fields(a: Seq<(String, Json)>, b: Seq<(String, Json)>) -> bool {
    same_value(JsonView::Object(members_of(a)), JsonView::Object(members_of(b)))
}

/// Whether two lists of named values are the same.
pub fn fields_match(a: &Arc<Vec<(String, Json)>>, b: &Arc<Vec<(String, Json)>>) -> (same: bool)
    ensures
        same == same_fields(a@, b@),
{
    Json::Object(share(a)).same(&Json::Object(share(b)))
}

/// Every JSON value equals itself, as long as no object holds a key twice.
pub proof fn law_value_equals_itself(value: JsonView)
    requires
        keys_distinct(value),
    ensures
        same_value(value, value),
    decreases value,
{
    match value {
        JsonView::List(items) => {
            assert forall|i: int| 0 <= i < items.len() implies same_value(
                #[trigger] items[i],
                items[i],
            ) by {
                law_value_equals_itself(items[i]);
            }
        },
        JsonView::Object(members) => {
            assert forall|i: int| 0 <= i < members.len() implies {
                let at = key_place(members, (#[trigger] members[i]).0);
                at < members.len() && same_value(members[i].1, members[at].1)
            } by {
                lemma_key_place(members, members[i].0, i);
                law_value_equals_itself(members[i].1);
            }
        },
        _ => {},
    }
}

/// No object in the value holds a key twice.
pub open spec fn keys_distinct(value: JsonView) -> bool
    decreases value,
{
    match value {
        JsonView::List(items) => forall|i: int|
            0 <= i < items.len() ==> keys_distinct(#[trigger] items[i]),
        JsonView::Object(members) => {
            &&& forall|i: int, j: int|
                0 <= i < j < members.len() ==> (#[trigger] members[i]).0 != (
                #[trigger] members[j]).0
            &&& forall|i: int| 0 <= i < members.len() ==> keys_distinct((#[trigger] members[i]).1)
        },
        _ => true,
    }
}

} // verus!
