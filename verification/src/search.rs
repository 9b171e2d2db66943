//! First and last matches in a sequence, and how many there are.

use vstd::prelude::*;

verus! {

/// The first element that satisfies `p`.
pub open spec fn first_where<T>(s: Seq<T>, p: spec_fn(T) -> bool) -> Option<T>
    decreases s.len(),
{
    if s.len() == 0 {
        None
    } else if p(s.first()) {
        Some(s.first())
    } else {
        first_where(s.drop_first(), p)
    }
}

/// The last element that satisfies `p`.
pub open spec fn last_where<T>(s: Seq<T>, p: spec_fn(T) -> bool) -> Option<T>
    decreases s.len(),
{
    if s.len() == 0 {
        None
    } else if p(s.last()) {
        Some(s.last())
    } else {
        last_where(s.drop_last(), p)
    }
}

/// The first match is at `i` when nothing before `i` matches.
pub proof fn lemma_first_found<T>(s: Seq<T>, p: spec_fn(T) -> bool, i: int)
    requires
        0 <= i < s.len(),
        p(s[i]),
        forall|j: int| 0 <= j < i ==> !p(#[trigger] s[j]),
    ensures
        first_where(s, p) == Some(s[i]),
    decreases s.len(),
{
    if i > 0 {
        assert(!p(s[0]));
        let t = s.drop_first();
        assert forall|j: int| 0 <= j < i - 1 implies !p(#[trigger] t[j]) by {
            assert(t[j] == s[j + 1]);
        }
        lemma_first_found(t, p, i - 1);
    }
}

/// There is no first match when nothing matches.
pub proof fn lemma_first_absent<T>(s: Seq<T>, p: spec_fn(T) -> bool)
    requires
        forall|j: int| 0 <= j < s.len() ==> !p(#[trigger] s[j]),
    ensures
        first_where(s, p) is None,
    decreases s.len(),
{
    if s.len() > 0 {
        assert(!p(s[0]));
        let t = s.drop_first();
        assert forall|j: int| 0 <= j < t.len() implies !p(#[trigger] t[j]) by {
            assert(t[j] == s[j + 1]);
        }
        lemma_first_absent(t, p);
    }
}

/// The last match is at `i` when nothing after `i` matches.
pub proof fn lemma_last_found<T>(s: Seq<T>, p: spec_fn(T) -> bool, i: int)
    requires
        0 <= i < s.len(),
        p(s[i]),
        forall|j: int| i < j < s.len() ==> !p(#[trigger] s[j]),
    ensures
        last_where(s, p) == Some(s[i]),
    decreases s.len(),
{
    if i < s.len() - 1 {
        assert(!p(s[s.len() - 1]));
        lemma_last_found(s.drop_last(), p, i);
    }
}

/// There is no last match when nothing matches.
pub proof fn lemma_last_absent<T>(s: Seq<T>, p: spec_fn(T) -> bool)
    requires
        forall|j: int| 0 <= j < s.len() ==> !p(#[trigger] s[j]),
    ensures
        last_where(s, p) is None,
    decreases s.len(),
{
    if s.len() > 0 {
        assert(!p(s[s.len() - 1]));
        lemma_last_absent(s.drop_last(), p);
    }
}

/// The first place from `from` on where `p` holds: the length when there is
/// none.
pub open spec fn place_from<T>(s: Seq<T>, p: spec_fn(int, T) -> bool, from: int) -> int
    decreases s.len() - from,
{
    if from >= s.len() || from < 0 {
        s.len() as int
    } else if p(from, s[from]) {
        from
    } else {
        place_from(s, p, from + 1)
    }
}

/// The first place where `p` holds is where it holds and did not before.
pub proof fn lemma_place_from<T>(s: Seq<T>, p: spec_fn(int, T) -> bool, from: int)
    requires
        0 <= from <= s.len(),
    ensures
        from <= place_from(s, p, from) <= s.len(),
        forall|j: int| from <= j < place_from(s, p, from) ==> !p(j, #[trigger] s[j]),
        place_from(s, p, from) < s.len() ==> p(place_from(s, p, from), s[place_from(s, p, from)]),
    decreases s.len() - from,
{
    if from < s.len() && !p(from, s[from]) {
        lemma_place_from(s, p, from + 1);
    }
}

/// `p` does not hold before `at`, and does at `at` if that is a place.
pub proof fn lemma_place_is<T>(s: Seq<T>, p: spec_fn(int, T) -> bool, at: int)
    requires
        0 <= at <= s.len(),
        forall|j: int| 0 <= j < at ==> !p(j, #[trigger] s[j]),
        at < s.len() ==> p(at, s[at]),
    ensures
        place_from(s, p, 0) == at,
{
    lemma_place_from(s, p, 0);
    let found = place_from(s, p, 0);
    if found < at {
        assert(!p(found, s[found]));
    } else if at < found {
        assert(!p(at, s[at]));
    }
}

/// The value of the first entry under `key`.
pub open spec fn lookup<K, V>(s: Seq<(K, V)>, key: K) -> Option<V>
    decreases s.len(),
{
    if s.len() == 0 {
        None
    } else if s.first().0 == key {
        Some(s.first().1)
    } else {
        lookup(s.drop_first(), key)
    }
}

/// The first entry under `key` is at `i` when nothing before `i` is.
pub proof fn lemma_lookup_found<K, V>(s: Seq<(K, V)>, key: K, i: int)
    requires
        0 <= i < s.len(),
        s[i].0 == key,
        forall|j: int| 0 <= j < i ==> (#[trigger] s[j]).0 != key,
    ensures
        lookup(s, key) == Some(s[i].1),
    decreases s.len(),
{
    if i > 0 {
        assert(s[0].0 != key);
        let t = s.drop_first();
        assert forall|j: int| 0 <= j < i - 1 implies (#[trigger] t[j]).0 != key by {
            assert(t[j] == s[j + 1]);
        }
        lemma_lookup_found(t, key, i - 1);
    }
}

/// No entry is under `key` when none has it.
pub proof fn lemma_lookup_absent<K, V>(s: Seq<(K, V)>, key: K)
    requires
        forall|j: int| 0 <= j < s.len() ==> (#[trigger] s[j]).0 != key,
    ensures
        lookup(s, key) is None,
    decreases s.len(),
{
    if s.len() > 0 {
        assert(s[0].0 != key);
        let t = s.drop_first();
        assert forall|j: int| 0 <= j < t.len() implies (#[trigger] t[j]).0 != key by {
            assert(t[j] == s[j + 1]);
        }
        lemma_lookup_absent(t, key);
    }
}

/// How many elements satisfy `p`.
pub open spec fn count_where<T>(s: Seq<T>, p: spec_fn(T) -> bool) -> nat
    decreases s.len(),
{
    if s.len() == 0 {
        0
    } else {
        count_where(s.drop_last(), p) + if p(s.last()) {
            1nat
        } else {
            0
        }
    }
}

/// One more element counts when it satisfies `p`.
pub proof fn lemma_count_push<T>(s: Seq<T>, p: spec_fn(T) -> bool, item: T)
    ensures
        count_where(s.push(item), p) == count_where(s, p) + (if p(item) {
            1int
        } else {
            0
        }),
{
    assert(s.push(item).drop_last() =~= s);
}

/// A removed element is one fewer when it satisfied `p`.
pub proof fn lemma_count_remove<T>(s: Seq<T>, p: spec_fn(T) -> bool, at: int)
    requires
        0 <= at < s.len(),
    ensures
        count_where(s.remove(at), p) == count_where(s, p) - (if p(s[at]) {
            1int
        } else {
            0
        }),
    decreases s.len(),
{
    if at == s.len() - 1 {
        assert(s.remove(at) =~= s.drop_last());
    } else {
        lemma_count_remove(s.drop_last(), p, at);
        assert(s.remove(at).drop_last() =~= s.drop_last().remove(at));
    }
}

/// What a stronger condition counts, a weaker one counts too, and more where
/// it holds of an element of which the stronger does not.
pub proof fn lemma_count_weaker<T>(
    s: Seq<T>,
    strong: spec_fn(T) -> bool,
    weak: spec_fn(T) -> bool,
)
    requires
        forall|i: int| 0 <= i < s.len() && strong(#[trigger] s[i]) ==> weak(s[i]),
    ensures
        count_where(s, strong) <= count_where(s, weak),
        (exists|i: int| 0 <= i < s.len() && weak(#[trigger] s[i]) && !strong(s[i])) ==> count_where(
            s,
            strong,
        ) < count_where(s, weak),
    decreases s.len(),
{
    if s.len() > 0 {
        let rest = s.drop_last();
        assert forall|i: int| 0 <= i < rest.len() && strong(#[trigger] rest[i]) implies weak(
            rest[i],
        ) by {
            assert(s[i] == rest[i]);
        }
        lemma_count_weaker(rest, strong, weak);
        assert(strong(s[s.len() - 1]) ==> weak(s[s.len() - 1]));
        if exists|i: int| 0 <= i < s.len() && weak(#[trigger] s[i]) && !strong(s[i]) {
            let i = choose|i: int| 0 <= i < s.len() && weak(#[trigger] s[i]) && !strong(s[i]);
            if i < s.len() - 1 {
                assert(weak(rest[i]) && !strong(rest[i]));
            }
        }
    }
}

/// A list back to front.
pub fn reversed<T>(list: Vec<T>) -> (turned: Vec<T>)
    ensures
        turned@ == list@.reverse(),
{
    let ghost all = list@;
    let mut left = list;
    let mut turned: Vec<T> = Vec::new();
    while left.len() > 0
        invariant
            left@.len() + turned@.len() == all.len(),
            left@ == all.take(left@.len() as int),
            forall|i: int|
                0 <= i < turned@.len() ==> #[trigger] turned@[i] == all[all.len() - 1 - i],
        decreases left.len(),
    {
        match left.pop() {
            Some(item) => turned.push(item),
            None => {},
        }
    }
    assert(turned@ =~= all.reverse());
    turned
}

} // verus!
