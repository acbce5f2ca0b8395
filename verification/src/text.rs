//! Names of markets and streams, and numbers as text.

use crate::orderbook::BASE_CURRENCY;
use vstd::prelude::*;
use vstd::string::{StrSliceExecFns, StringExecFns};

verus! {

/// The index of the first underscore, or the length where there is none.
pub open spec fn first_underscore(text: Seq<char>) -> nat
    decreases text.len(),
{
    if text.len() == 0 || text[0] == '_' {
        0
    } else {
        1 + first_underscore(text.skip(1))
    }
}

pub proof fn lemma_first_underscore(text: Seq<char>)
    ensures
        first_underscore(text) <= text.len(),
        first_underscore(text) < text.len() ==> text[first_underscore(text) as int] == '_',
        forall|i: int| 0 <= i < first_underscore(text) ==> text[i] != '_',
    decreases text.len(),
{
    if text.len() == 0 || text[0] == '_' {
    } else {
        let rest = text.skip(1);
        lemma_first_underscore(rest);
        assert forall|i: int| 0 <= i < first_underscore(rest) + 1 implies text[i] != '_' by {
            if i > 0 {
                assert(text[i] == rest[i - 1]);
            }
        }
        if first_underscore(rest) < rest.len() {
            assert(text[first_underscore(rest) as int + 1] == rest[first_underscore(rest) as int]);
        }
    }
}

/// The base asset of a market: its name up to the first underscore.
pub open spec fn market_base(market: Seq<char>) -> Seq<char> {
    market.take(first_underscore(market) as int)
}

/// The quote asset of a market: what stands between the first underscore
/// and the next, or the base currency where the name has no underscore.
pub open spec fn market_quote(market: Seq<char>) -> Seq<char> {
    let first = first_underscore(market) as int;
    if first >= market.len() {
        BASE_CURRENCY@
    } else {
        let rest = market.skip(first + 1);
        rest.take(first_underscore(rest) as int)
    }
}

/// The index of the first underscore at or after `from`.
fn find_underscore(text: &str, from: usize) -> (at: usize)
    requires
        from <= text@.len(),
    ensures
        at == from + first_underscore(text@.skip(from as int)),
        from <= at <= text@.len(),
{
    let len = text.unicode_len();
    let mut at: usize = from;
    proof {
        lemma_first_underscore(text@.skip(from as int));
    }
    while at < len && text.get_char(at) != '_'
        invariant
            from <= at <= len,
            len == text@.len(),
            from + first_underscore(text@.skip(from as int)) == at + first_underscore(
                text@.skip(at as int),
            ),
        decreases len - at,
    {
        assert(text@.skip(at as int)[0] == text@[at as int]);
        assert(text@.skip(at as int).skip(1) =~= text@.skip(at + 1));
        at = at + 1;
    }
    proof {
        if at < len {
            assert(text@.skip(at as int)[0] == text@[at as int]);
        } else {
            assert(text@.skip(at as int) =~= Seq::<char>::empty());
        }
    }
    at
}

/// The base and the quote asset of a market.
pub fn split_market(market: &str) -> (assets: (String, String))
    ensures
        assets.0@ == market_base(market@),
        assets.1@ == market_quote(market@),
{
    let len = market.unicode_len();
    assert(market@.skip(0) =~= market@);
    let first = find_underscore(market, 0);
    let base = market.substring_char(0, first).to_string();
    assert(market@.subrange(0, first as int) =~= market@.take(first as int));
    if first >= len {
        (base, BASE_CURRENCY.to_string())
    } else {
        let second = find_underscore(market, first + 1);
        let quote = market.substring_char(first + 1, second).to_string();
        assert(market@.subrange(first + 1, second as int) =~= market@.skip(first + 1).take(
            second - first - 1,
        ));
        (base, quote)
    }
}

/// The name of a market's stream: `prefix`, an at sign, the market's name.
pub open spec fn stream_name(prefix: Seq<char>, market: Seq<char>) -> Seq<char> {
    prefix + seq!['@'] + market
}

/// The name of the stream of `prefix` for `market`.
pub fn stream_for(prefix: &str, market: &str) -> (name: String)
    ensures
        name@ == stream_name(prefix@, market@),
{
    let mut name = prefix.to_string();
    proof {
        reveal_strlit("@");
        assert("@"@ =~= seq!['@']);
    }
    name.append("@");
    name.append(market);
    name
}

/// The character of a decimal digit.
pub open spec fn digit_char(digit: nat) -> char {
    if digit == 0 {
        '0'
    } else if digit == 1 {
        '1'
    } else if digit == 2 {
        '2'
    } else if digit == 3 {
        '3'
    } else if digit == 4 {
        '4'
    } else if digit == 5 {
        '5'
    } else if digit == 6 {
        '6'
    } else if digit == 7 {
        '7'
    } else if digit == 8 {
        '8'
    } else {
        '9'
    }
}

/// A number in decimal digits, without leading zeros.
pub open spec fn decimal_digits(n: nat) -> Seq<char>
    decreases n,
{
    if n < 10 {
        seq![digit_char(n)]
    } else {
        decimal_digits(n / 10).push(digit_char(n % 10))
    }
}

/// `ToString::to_string` of a `u64`, which writes the number in decimal
/// digits without sign or leading zeros.
#[verifier::external_body]
pub(crate) fn u64_to_string(n: u64) -> (text: String)
    ensures
        text@ == decimal_digits(n as nat),
{
    n.to_string()
}

/// Whether two texts are the same.
pub fn same_text(a: &str, b: &str) -> (same: bool)
    ensures
        same == (a@ == b@),
{
    let left = a.to_string();
    let right = b.to_string();
    left == right
}

} // verus!
