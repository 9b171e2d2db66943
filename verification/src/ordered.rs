//! Values by name, in the order of their names.

use vstd::prelude::*;
use vstd::string::*;

verus! {

/// Whether one text comes before another: at the first character that
/// differs its own is the lower, or it is a proper prefix.
pub open spec fn before(a: Seq<char>, b: Seq<char>) -> bool
    decreases a.len(),
{
    if b.len() == 0 {
        false
    } else if a.len() == 0 {
        true
    } else if a[0] != b[0] {
        a[0] < b[0]
    } else {
        before(a.drop_first(), b.drop_first())
    }
}

/// Of two different texts one comes first, and only one.
pub proof fn law_one_comes_first(a: Seq<char>, b: Seq<char>)
    ensures
        !(before(a, b) && before(b, a)),
        before(a, b) || before(b, a) <==> a != b,
    decreases a.len(),
{
    if a.len() > 0 && b.len() > 0 && a[0] == b[0] {
        law_one_comes_first(a.drop_first(), b.drop_first());
        if a.drop_first() == b.drop_first() {
            assert(a =~= seq![a[0]] + a.drop_first());
            assert(b =~= seq![b[0]] + b.drop_first());
        }
    } else if a.len() == 0 && b.len() == 0 {
        assert(a =~= b);
    }
}

/// A text before another comes before all that follow it.
pub proof fn law_before_is_transitive(a: Seq<char>, b: Seq<char>, c: Seq<char>)
    requires
        before(a, b),
        before(b, c),
    ensures
        before(a, c),
    decreases a.len(),
{
    if a.len() > 0 && a[0] == b[0] && b[0] == c[0] {
        law_before_is_transitive(a.drop_first(), b.drop_first(), c.drop_first());
    }
}

proof fn lemma_common_prefix(a: Seq<char>, b: Seq<char>, n: int)
    requires
        0 <= n <= a.len(),
        n <= b.len(),
        forall|j: int| 0 <= j < n ==> #[trigger] a[j] == b[j],
    ensures
        before(a, b) == before(a.skip(n), b.skip(n)),
    decreases n,
{
    if n == 0 {
        assert(a.skip(0) =~= a);
        assert(b.skip(0) =~= b);
    } else {
        assert(a[0] == b[0]);
        let x = a.drop_first();
        let y = b.drop_first();
        assert forall|j: int| 0 <= j < n - 1 implies #[trigger] x[j] == y[j] by {
            assert(a[j + 1] == b[j + 1]);
        }
        lemma_common_prefix(x, y, n - 1);
        assert(x.skip(n - 1) =~= a.skip(n));
        assert(y.skip(n - 1) =~= b.skip(n));
    }
}

/// Whether one text comes before another.
pub fn comes_before(a: &String, b: &String) -> (first: bool)
    ensures
        first == before(a@, b@),
{
    let x = a.as_str();
    let y = b.as_str();
    let m = x.unicode_len();
    let n = y.unicode_len();
    let mut i: usize = 0;
    while i < m && i < n
        invariant
            i <= m,
            i <= n,
            m == x@.len(),
            n == y@.len(),
            x@ == a@,
            y@ == b@,
            forall|j: int| 0 <= j < i ==> #[trigger] x@[j] == y@[j],
        decreases m - i,
    {
        let c = x.get_char(i);
        let d = y.get_char(i);
        if c != d {
            proof {
                lemma_common_prefix(x@, y@, i as int);
                assert(x@.skip(i as int)[0] == c);
                assert(y@.skip(i as int)[0] == d);
            }
            return c < d;
        }
        i = i + 1;
    }
    proof {
        lemma_common_prefix(x@, y@, i as int);
    }
    i < n
}

/// The value under a name.
pub open spec fn held<V>(entries: Seq<(String, V)>, name: Seq<char>) -> Option<V>
    decreases entries.len(),
{
    if entries.len() == 0 {
        None
    } else if entries.first().0@ == name {
        Some(entries.first().1)
    } else {
        held(entries.drop_first(), name)
    }
}

/// Whether the entries stand in the order of their names, each name once.
pub open spec fn ordered<V>(entries: Seq<(String, V)>) -> bool {
    forall|i: int, j: int|
        0 <= i < j < entries.len() ==> before((#[trigger] entries[i]).0@, (#[trigger] entries[j]).0@)
}

/// The first entry with a name is the one that is found.
pub(crate) proof fn lemma_held_at<V>(entries: Seq<(String, V)>, name: Seq<char>, i: int)
    requires
        0 <= i < entries.len(),
        entries[i].0@ == name,
        forall|j: int| 0 <= j < i ==> (#[trigger] entries[j]).0@ != name,
    ensures
        held(entries, name) == Some(entries[i].1),
    decreases entries.len(),
{
    if i > 0 {
        assert(entries[0].0@ != name);
        let rest = entries.drop_first();
        assert forall|j: int| 0 <= j < i - 1 implies (#[trigger] rest[j]).0@ != name by {
            assert(rest[j] == entries[j + 1]);
        }
        lemma_held_at(rest, name, i - 1);
    }
}

/// Nothing is found where no entry has the name.
pub(crate) proof fn lemma_not_held<V>(entries: Seq<(String, V)>, name: Seq<char>)
    requires
        forall|j: int| 0 <= j < entries.len() ==> (#[trigger] entries[j]).0@ != name,
    ensures
        held(entries, name) is None,
    decreases entries.len(),
{
    if entries.len() > 0 {
        assert(entries[0].0@ != name);
        let rest = entries.drop_first();
        assert forall|j: int| 0 <= j < rest.len() implies (#[trigger] rest[j]).0@ != name by {
            assert(rest[j] == entries[j + 1]);
        }
        lemma_not_held(rest, name);
    }
}

/// In ordered entries each stands under its own name.
pub(crate) proof fn lemma_ordered_held<V>(entries: Seq<(String, V)>, i: int)
    requires
        ordered(entries),
        0 <= i < entries.len(),
    ensures
        held(entries, entries[i].0@) == Some(entries[i].1),
{
    assert forall|j: int| 0 <= j < i implies (#[trigger] entries[j]).0@ != entries[i].0@ by {
        assert(before(entries[j].0@, entries[i].0@));
        law_one_comes_first(entries[j].0@, entries[i].0@);
    }
    lemma_held_at(entries, entries[i].0@, i);
}

/// What is found stands somewhere among the entries.
pub(crate) proof fn lemma_held_somewhere<V>(entries: Seq<(String, V)>, name: Seq<char>) -> (i: int)
    requires
        held(entries, name) is Some,
    ensures
        0 <= i < entries.len(),
        entries[i].0@ == name,
        held(entries, name) == Some(entries[i].1),
    decreases entries.len(),
{
    if entries.first().0@ == name {
        0
    } else {
        let i = lemma_held_somewhere(entries.drop_first(), name);
        i + 1
    }
}

/// The value under a name.
pub fn find<'a, V>(entries: &'a Vec<(String, V)>, name: &String) -> (found: Option<&'a V>)
    ensures
        found == (match held(entries@, name@) {
            Some(value) => Some(&value),
            None => None,
        }),
{
    let mut i: usize = 0;
    while i < entries.len()
        invariant
            i <= entries.len(),
            forall|j: int| 0 <= j < i ==> (#[trigger] entries@[j]).0@ != name@,
        decreases entries.len() - i,
    {
        if entries[i].0 == *name {
            proof {
                lemma_held_at(entries@, name@, i as int);
            }
            return Some(&entries[i].1);
        }
        i = i + 1;
    }
    proof {
        lemma_not_held(entries@, name@);
    }
    None
}

/// Put a value under a name, in place of what was there.
pub fn put<V>(entries: &mut Vec<(String, V)>, name: String, value: V)
    requires
        ordered(old(entries)@),
    ensures
        ordered(final(entries)@),
        held(final(entries)@, name@) == Some(value),
        forall|other: Seq<char>|
            other != name@ ==> #[trigger] held(final(entries)@, other) == held(
                old(entries)@,
                other,
            ),
        final(entries)@.len() == (if held(old(entries)@, name@) is Some {
            old(entries)@.len()
        } else {
            old(entries)@.len() + 1
        }),
{
    let ghost was = entries@;
    let ghost key = name@;
    let mut i: usize = 0;
    while i < entries.len() && comes_before(&entries[i].0, &name)
        invariant
            i <= entries.len(),
            entries@ == was,
            key == name@,
            forall|j: int| 0 <= j < i ==> before((#[trigger] was[j]).0@, key),
        decreases entries.len() - i,
    {
        i = i + 1;
    }
    proof {
        assert forall|j: int| 0 <= j < i implies (#[trigger] was[j]).0@ != key by {
            law_one_comes_first(was[j].0@, key);
        }
    }
    if i < entries.len() && entries[i].0 == name {
        proof {
            lemma_held_at(was, key, i as int);
        }
        entries.set(i, (name, value));
        proof {
            let now = entries@;
            assert forall|a: int, b: int| 0 <= a < b < now.len() implies before(
                (#[trigger] now[a]).0@,
                (#[trigger] now[b]).0@,
            ) by {
                assert(before(was[a].0@, was[b].0@));
            }
            lemma_ordered_held(now, i as int);
            assert forall|other: Seq<char>| other != key implies #[trigger] held(now, other)
                == held(was, other) by {
                lemma_elsewhere(was, now, other, |j: int| j);
                if held(now, other) is Some {
                    let j = lemma_held_somewhere(now, other);
                    lemma_ordered_held(was, j);
                }
            }
        }
    } else {
        proof {
            if i < was.len() {
                law_one_comes_first(was[i as int].0@, key);
            }
            assert forall|j: int| 0 <= j < was.len() implies (#[trigger] was[j]).0@ != key by {
                if j > i {
                    assert(before(was[i as int].0@, was[j].0@));
                    law_before_is_transitive(key, was[i as int].0@, was[j].0@);
                    law_one_comes_first(was[j].0@, key);
                }
            }
            lemma_not_held(was, key);
        }
        entries.insert(i, (name, value));
        proof {
            let now = entries@;
            assert forall|a: int, b: int| 0 <= a < b < now.len() implies before(
                (#[trigger] now[a]).0@,
                (#[trigger] now[b]).0@,
            ) by {
                let x = if a < i { a } else { a - 1 };
                let y = if b < i { b } else { b - 1 };
                if a == i {
                    assert(now[b] == was[y]);
                    if y > i {
                        assert(before(was[i as int].0@, was[y].0@));
                        law_before_is_transitive(key, was[i as int].0@, was[y].0@);
                    }
                } else if b == i {
                    assert(now[a] == was[a]);
                } else {
                    assert(now[a] == was[x] && now[b] == was[y]);
                    assert(before(was[x].0@, was[y].0@));
                }
            }
            lemma_ordered_held(now, i as int);
            assert forall|other: Seq<char>| other != key implies #[trigger] held(now, other)
                == held(was, other) by {
                lemma_elsewhere(was, now, other, |j: int| if j < i { j } else { j + 1 });
                if held(now, other) is Some {
                    let j = lemma_held_somewhere(now, other);
                    let back = if j < i { j } else { j - 1 };
                    assert(was[back] == now[j]);
                    lemma_ordered_held(was, back);
                }
            }
        }
    }
}

/// Take the value under a name out.
pub fn take_out<V>(entries: &mut Vec<(String, V)>, name: &String)
    requires
        ordered(old(entries)@),
    ensures
        ordered(final(entries)@),
        held(final(entries)@, name@) is None,
        forall|other: Seq<char>|
            other != name@ ==> #[trigger] held(final(entries)@, other) == held(
                old(entries)@,
                other,
            ),
{
    let ghost was = entries@;
    let ghost key = name@;
    let mut i: usize = 0;
    while i < entries.len() && entries[i].0 != *name
        invariant
            i <= entries.len(),
            entries@ == was,
            key == name@,
            forall|j: int| 0 <= j < i ==> (#[trigger] was[j]).0@ != key,
        decreases entries.len() - i,
    {
        i = i + 1;
    }
    if i == entries.len() {
        proof {
            lemma_not_held(was, key);
        }
        return;
    }
    let _ = entries.remove(i);
    proof {
        let now = entries@;
        assert forall|a: int, b: int| 0 <= a < b < now.len() implies before(
            (#[trigger] now[a]).0@,
            (#[trigger] now[b]).0@,
        ) by {
            let x = if a < i { a } else { a + 1 };
            let y = if b < i { b } else { b + 1 };
            assert(now[a] == was[x] && now[b] == was[y]);
            assert(before(was[x].0@, was[y].0@));
        }
        assert forall|j: int| 0 <= j < now.len() implies (#[trigger] now[j]).0@ != key by {
            let x = if j < i { j } else { j + 1 };
            assert(now[j] == was[x]);
            if x > i {
                assert(before(was[i as int].0@, was[x].0@));
            }
            law_one_comes_first(was[i as int].0@, was[x].0@);
        }
        lemma_not_held(now, key);
        assert forall|other: Seq<char>| other != key implies #[trigger] held(now, other) == held(
            was,
            other,
        ) by {
            lemma_elsewhere(was, now, other, |j: int| if j < i { j } else { j - 1 });
            if held(now, other) is Some {
                let j = lemma_held_somewhere(now, other);
                let back = if j < i { j } else { j + 1 };
                assert(was[back] == now[j]);
                lemma_ordered_held(was, back);
            }
        }
    }
}

/// What was found before is found where its entry went.
proof fn lemma_elsewhere<V>(
    was: Seq<(String, V)>,
    now: Seq<(String, V)>,
    name: Seq<char>,
    moved: spec_fn(int) -> int,
)
    requires
        ordered(now),
        forall|j: int|
            0 <= j < was.len() && (#[trigger] was[j]).0@ == name ==> 0 <= moved(j) < now.len()
                && now[moved(j)] == was[j],
    ensures
        held(was, name) is Some ==> held(now, name) == held(was, name),
{
    if held(was, name) is Some {
        let j = lemma_held_somewhere(was, name);
        assert(was[j].0@ == name);
        lemma_ordered_held(now, moved(j));
    }
}

} // verus!
