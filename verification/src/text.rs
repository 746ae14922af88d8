//! Small pieces of text.
use vstd::prelude::*;

use crate::nibbles::{hex_char, hex_digit};

verus! {

/// The decimal digits of a number, without leading zeros.
pub open spec fn decimal_of(n: nat) -> Seq<char>
    decreases n,
{
    if n < 10 {
        seq![hex_char(n as u8)]
    } else {
        decimal_of(n / 10).push(hex_char((n % 10) as u8))
    }
}

/// The decimal digits of a number, without leading zeros.
pub fn decimal(n: u64) -> (text: String)
    ensures
        text@ == decimal_of(n as nat),
    decreases n,
{
    if n < 10 {
        let mut text: String = String::new();
        text.append(hex_digit(n as u8));
        assert(text@ =~= seq![hex_char(n as u8)]);
        text
    } else {
        let mut text: String = decimal(n / 10);
        let ghost before = text@;
        text.append(hex_digit((n % 10) as u8));
        assert(text@ =~= before.push(hex_char((n % 10) as u8)));
        text
    }
}

/// Whether two texts are the same.
pub fn same_text(a: &str, b: &str) -> (r: bool)
    ensures
        r == (a@ == b@),
{
    let x: String = a.to_owned();
    let y: String = b.to_owned();
    x == y
}

/// What follows `prefix` in `text`, if `text` begins with it.
pub open spec fn after_prefix(text: Seq<char>, prefix: Seq<char>) -> Option<Seq<char>> {
    if prefix.len() <= text.len() && text.take(prefix.len() as int) == prefix {
        Some(text.skip(prefix.len() as int))
    } else {
        None
    }
}

/// What follows `prefix` in `text`, if `text` begins with it.
pub fn strip_prefix(text: &str, prefix: &str) -> (r: Option<String>)
    ensures
        match r {
            Some(rest) => after_prefix(text@, prefix@) == Some(rest@),
            None => after_prefix(text@, prefix@) is None,
        },
{
    let n: usize = text.unicode_len();
    let k: usize = prefix.unicode_len();
    if n < k {
        return None;
    }
    assert(text@.subrange(0, k as int) =~= text@.take(k as int));
    if !same_text(text.substring_char(0, k), prefix) {
        return None;
    }
    let rest: String = text.substring_char(k, n).to_owned();
    assert(rest@ =~= text@.skip(k as int));
    Some(rest)
}

/// The number that decimal digits spell.
pub open spec fn number_spelled(text: Seq<char>) -> int
    decreases text.len(),
{
    if text.len() == 0 {
        0
    } else {
        number_spelled(text.drop_last()) * 10 + (text.last() as int - '0' as int)
    }
}

/// The decimal text of a number spells it, in digits only and without leading zeros.
pub proof fn lemma_decimal_spells(n: nat)
    ensures
        number_spelled(decimal_of(n)) == n,
        decimal_of(n).len() > 0,
        forall|i: int|
            0 <= i < decimal_of(n).len() ==> '0' as int <= #[trigger] decimal_of(n)[i] as int
                <= '9' as int,
        decimal_of(n)[0] == '0' ==> n == 0,
    decreases n,
{
    if n < 10 {
        let text = decimal_of(n);
        assert(text.drop_last() =~= Seq::empty());
        assert(number_spelled(Seq::<char>::empty()) == 0);
    } else {
        lemma_decimal_spells(n / 10);
        let text = decimal_of(n);
        assert(text.drop_last() =~= decimal_of(n / 10));
        assert(text[0] == decimal_of(n / 10)[0]);
    }
}

/// A text begins with a prefix exactly where it is the prefix and something more, and that is what
/// follows it.
pub proof fn lemma_prefix_and_rest(text: Seq<char>, prefix: Seq<char>, rest: Seq<char>)
    ensures
        after_prefix(text, prefix) == Some(rest) <==> text == prefix + rest,
        after_prefix(text, prefix) is None ==> text != prefix + rest,
{
    let n = prefix.len() as int;
    if text == prefix + rest {
        assert(text.take(n) =~= prefix);
        assert(text.skip(n) =~= rest);
    }
    if after_prefix(text, prefix) == Some(rest) {
        assert(text =~= text.take(n) + text.skip(n));
    }
}

} // verus!
