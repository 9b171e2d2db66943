//! Graph digests as text: sixty-four hexadecimal digits.

use crate::ids::GraphDigest;
use vstd::prelude::*;
use vstd::string::*;

verus! {

/// One hexadecimal digit, in lower case.
pub open spec fn hex_digit(d: nat) -> char {
    if d == 0 {
        '0'
    } else if d == 1 {
        '1'
    } else if d == 2 {
        '2'
    } else if d == 3 {
        '3'
    } else if d == 4 {
        '4'
    } else if d == 5 {
        '5'
    } else if d == 6 {
        '6'
    } else if d == 7 {
        '7'
    } else if d == 8 {
        '8'
    } else if d == 9 {
        '9'
    } else if d == 10 {
        'a'
    } else if d == 11 {
        'b'
    } else if d == 12 {
        'c'
    } else if d == 13 {
        'd'
    } else if d == 14 {
        'e'
    } else {
        'f'
    }
}

/// The value of a hexadecimal digit, in either case.
pub open spec fn hex_value(c: char) -> Option<nat> {
    if '0' <= c && c <= '9' {
        Some((c as int - '0' as int) as nat)
    } else if 'a' <= c && c <= 'f' {
        Some((c as int - 'a' as int + 10) as nat)
    } else if 'A' <= c && c <= 'F' {
        Some((c as int - 'A' as int + 10) as nat)
    } else {
        None
    }
}

/// The last `count` hexadecimal digits of a number.
pub open spec fn hex(n: nat, count: nat) -> Seq<char>
    decreases count,
{
    if count == 0 {
        Seq::empty()
    } else {
        hex(n / 16, (count - 1) as nat).push(hex_digit(n % 16))
    }
}

/// The number hexadecimal digits stand for.
pub open spec fn unhex(digits: Seq<char>) -> Option<nat>
    decreases digits.len(),
{
    if digits.len() == 0 {
        Some(0)
    } else {
        match (unhex(digits.drop_last()), hex_value(digits.last())) {
            (Some(high), Some(low)) => Some(high * 16 + low),
            _ => None,
        }
    }
}

/// Sixteen to a power.
pub open spec fn sixteen(power: nat) -> nat
    decreases power,
{
    if power == 0 {
        1
    } else {
        16 * sixteen((power - 1) as nat)
    }
}

/// A digest as text.
pub open spec fn digest_text(digest: GraphDigest) -> Seq<char> {
    hex(digest.high as nat, 32) + hex(digest.low as nat, 32)
}

/// The digest a text names.
pub open spec fn digest_named(text: Seq<char>) -> Option<GraphDigest> {
    if text.len() == 64 {
        match (unhex(text.take(32)), unhex(text.skip(32))) {
            (Some(high), Some(low)) => Some(GraphDigest { high: high as u128, low: low as u128 }),
            _ => None,
        }
    } else {
        None
    }
}

proof fn lemma_sixteen_grows(a: nat, b: nat)
    requires
        a <= b,
    ensures
        1 <= sixteen(a) <= sixteen(b),
    decreases b,
{
    if a < b {
        lemma_sixteen_grows(a, (b - 1) as nat);
    } else if a > 0 {
        lemma_sixteen_grows((a - 1) as nat, (a - 1) as nat);
    }
}

proof fn lemma_full_width()
    ensures
        sixteen(32) == u128::MAX + 1,
{
    reveal_with_fuel(sixteen, 33);
}

proof fn lemma_unhex_bound(digits: Seq<char>)
    ensures
        unhex(digits) matches Some(n) ==> n < sixteen(digits.len()),
    decreases digits.len(),
{
    if digits.len() > 0 {
        lemma_unhex_bound(digits.drop_last());
    }
}

proof fn lemma_hex_len(n: nat, count: nat)
    ensures
        hex(n, count).len() == count,
    decreases count,
{
    if count > 0 {
        lemma_hex_len(n / 16, (count - 1) as nat);
    }
}

proof fn lemma_digit_value(d: nat)
    requires
        d < 16,
    ensures
        hex_value(hex_digit(d)) == Some(d),
{
}

proof fn lemma_hex_read_back(n: nat, count: nat)
    requires
        n < sixteen(count),
    ensures
        unhex(hex(n, count)) == Some(n),
    decreases count,
{
    if count > 0 {
        assert(n / 16 < sixteen((count - 1) as nat));
        lemma_hex_read_back(n / 16, (count - 1) as nat);
        lemma_hex_len(n / 16, (count - 1) as nat);
        lemma_digit_value(n % 16);
        let digits = hex(n, count);
        assert(digits.drop_last() =~= hex(n / 16, (count - 1) as nat));
        assert(digits.last() == hex_digit(n % 16));
    }
}

/// Reading a digest's text gives the digest back.
pub proof fn law_digest_reads_back(digest: GraphDigest)
    ensures
        digest_named(digest_text(digest)) == Some(digest),
{
    lemma_full_width();
    lemma_hex_len(digest.high as nat, 32);
    lemma_hex_len(digest.low as nat, 32);
    lemma_hex_read_back(digest.high as nat, 32);
    lemma_hex_read_back(digest.low as nat, 32);
    let text = digest_text(digest);
    assert(text.take(32) =~= hex(digest.high as nat, 32));
    assert(text.skip(32) =~= hex(digest.low as nat, 32));
}

fn value_of_digit(c: char) -> (value: Option<u128>)
    ensures
        match value {
            Some(value) => hex_value(c) == Some(value as nat) && value < 16,
            None => hex_value(c) is None,
        },
{
    if '0' <= c && c <= '9' {
        Some(c as u128 - '0' as u128)
    } else if 'a' <= c && c <= 'f' {
        Some(c as u128 - 'a' as u128 + 10)
    } else if 'A' <= c && c <= 'F' {
        Some(c as u128 - 'A' as u128 + 10)
    } else {
        None
    }
}

/// The number half a digest's digits stand for.
fn read_half(text: &str, from: usize) -> (half: Option<u128>)
    requires
        from + 32 <= text@.len(),
        text@.len() <= 64,
    ensures
        match half {
            Some(half) => unhex(text@.subrange(from as int, from + 32)) == Some(half as nat),
            None => unhex(text@.subrange(from as int, from + 32)) is None,
        },
{
    let ghost digits = text@.subrange(from as int, from + 32);
    let mut half: u128 = 0;
    let mut i: usize = 0;
    assert(digits.take(0) =~= Seq::empty());
    proof {
        lemma_full_width();
    }
    while i < 32
        invariant
            i <= 32,
            from + 32 <= text@.len(),
            text@.len() <= 64,
            digits == text@.subrange(from as int, from + 32),
            unhex(digits.take(i as int)) == Some(half as nat),
            half < sixteen(i as nat),
            sixteen(32) == u128::MAX + 1,
        decreases 32 - i,
    {
        proof {
            lemma_sixteen_grows((i + 1) as nat, 32);
            assert(digits.take(i + 1).drop_last() =~= digits.take(i as int));
            assert(digits.take(i + 1).last() == text@[from + i]);
        }
        match value_of_digit(text.get_char(from + i)) {
            Some(value) => {
                half = half * 16 + value;
            },
            None => {
                proof {
                    lemma_unhex_fails(digits, i as int);
                }
                return None;
            },
        }
        i = i + 1;
    }
    assert(digits.take(32) =~= digits);
    Some(half)
}

proof fn lemma_unhex_fails(digits: Seq<char>, at: int)
    requires
        0 <= at < digits.len(),
        hex_value(digits[at]) is None,
    ensures
        unhex(digits) is None,
    decreases digits.len(),
{
    if at < digits.len() - 1 {
        lemma_unhex_fails(digits.drop_last(), at);
    }
}

impl GraphDigest {
    /// The digest a text names: sixty-four hexadecimal digits.
    pub fn parse(text: &str) -> (digest: Option<GraphDigest>)
        ensures
            digest == digest_named(text@),
    {
        if text.unicode_len() != 64 {
            return None;
        }
        proof {
            lemma_full_width();
            lemma_unhex_bound(text@.take(32));
            lemma_unhex_bound(text@.skip(32));
            assert(text@.subrange(0, 32) =~= text@.take(32));
            assert(text@.subrange(32, 64) =~= text@.skip(32));
        }
        match (read_half(text, 0), read_half(text, 32)) {
            (Some(high), Some(low)) => Some(GraphDigest { high, low }),
            _ => None,
        }
    }
}

fn digit_text(d: u128) -> (text: &'static str)
    requires
        d < 16,
    ensures
        text@ == seq![hex_digit(d as nat)],
{
    proof {
        reveal_strlit("0");
        reveal_strlit("1");
        reveal_strlit("2");
        reveal_strlit("3");
        reveal_strlit("4");
        reveal_strlit("5");
        reveal_strlit("6");
        reveal_strlit("7");
        reveal_strlit("8");
        reveal_strlit("9");
        reveal_strlit("a");
        reveal_strlit("b");
        reveal_strlit("c");
        reveal_strlit("d");
        reveal_strlit("e");
        reveal_strlit("f");
    }
    let text = if d == 0 {
        "0"
    } else if d == 1 {
        "1"
    } else if d == 2 {
        "2"
    } else if d == 3 {
        "3"
    } else if d == 4 {
        "4"
    } else if d == 5 {
        "5"
    } else if d == 6 {
        "6"
    } else if d == 7 {
        "7"
    } else if d == 8 {
        "8"
    } else if d == 9 {
        "9"
    } else if d == 10 {
        "a"
    } else if d == 11 {
        "b"
    } else if d == 12 {
        "c"
    } else if d == 13 {
        "d"
    } else if d == 14 {
        "e"
    } else {
        "f"
    };
    assert(text@ =~= seq![hex_digit(d as nat)]);
    text
}

fn hex_text(n: u128, count: u32) -> (text: String)
    ensures
        text@ == hex(n as nat, count as nat),
    decreases count,
{
    if count == 0 {
        String::new()
    } else {
        let mut text = hex_text(n / 16, count - 1);
        text.append(digit_text(n % 16));
        assert(text@ =~= hex(n as nat, count as nat));
        text
    }
}

impl GraphDigest {
    /// The digest as text.
    pub fn text(&self) -> (text: String)
        ensures
            text@ == digest_text(*self),
    {
        let mut text = hex_text(self.high, 32);
        text.append(hex_text(self.low, 32).as_str());
        text
    }
}

} // verus!
