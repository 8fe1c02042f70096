//! The card token grammar: `10`, `11`, `1` to `9`, and the letters A, K, Q, J, X
//! in either case, found left to right without overlap.
use vstd::prelude::*;

use crate::calc::Card;

verus! {

/// The token pattern, alternatives tried in order at each position.
pub const CARD_PATTERN: &'static str = "10|11|1|2|3|4|5|6|7|8|9|A|K|Q|J|a|k|q|j|X|x";

/// A character that starts a one-character token.
pub open spec fn is_card_char(c: char) -> bool {
    ('1' <= c && c <= '9') || c == 'A' || c == 'a' || c == 'K' || c == 'k' || c == 'Q' || c == 'q'
        || c == 'J' || c == 'j' || c == 'X' || c == 'x'
}

/// The tokens of `CARD_PATTERN` in `s`, leftmost first and without overlap:
/// at a `1`, the two-character tokens `10` and `11` are preferred; characters
/// that start no token are skipped.
pub open spec fn card_tokens(s: Seq<char>) -> Seq<Seq<char>>
    decreases s.len(),
{
    if s.len() == 0 {
        seq![]
    } else if s.len() >= 2 && s[0] == '1' && (s[1] == '0' || s[1] == '1') {
        seq![s.subrange(0, 2)] + card_tokens(s.subrange(2, s.len() as int))
    } else if is_card_char(s[0]) {
        seq![s.subrange(0, 1)] + card_tokens(s.subrange(1, s.len() as int))
    } else {
        card_tokens(s.subrange(1, s.len() as int))
    }
}

/// The rank a token names, if any.
pub open spec fn token_card(t: Seq<char>) -> Option<Card> {
    if t =~= seq!['1'] || t =~= seq!['1', '1'] || t =~= seq!['A'] || t =~= seq!['a'] {
        Some(Card::Ace)
    } else if t =~= seq!['1', '0'] {
        Some(Card::Ten)
    } else if t.len() == 1 {
        let c = t[0];
        if c == '2' {
            Some(Card::Two)
        } else if c == '3' {
            Some(Card::Three)
        } else if c == '4' {
            Some(Card::Four)
        } else if c == '5' {
            Some(Card::Five)
        } else if c == '6' {
            Some(Card::Six)
        } else if c == '7' {
            Some(Card::Seven)
        } else if c == '8' {
            Some(Card::Eight)
        } else if c == '9' {
            Some(Card::Nine)
        } else if c == 'J' || c == 'j' || c == 'Q' || c == 'q' || c == 'K' || c == 'k' || c == 'X'
            || c == 'x' {
            Some(Card::Ten)
        } else {
            None
        }
    } else {
        None
    }
}

/// The cards a token sequence names, or the first token that names none.
pub open spec fn parse_tokens(ts: Seq<Seq<char>>) -> Result<Seq<Card>, Seq<char>>
    decreases ts.len(),
{
    if ts.len() == 0 {
        Ok(seq![])
    } else {
        match parse_tokens(ts.drop_last()) {
            Err(e) => Err(e),
            Ok(cs) => match token_card(ts.last()) {
                Some(c) => Ok(cs.push(c)),
                None => Err(ts.last()),
            },
        }
    }
}

/// Relies on regex::Regex::new and regex::Regex::find_iter: the successive
/// non-overlapping leftmost-first matches of `CARD_PATTERN`, as characters.
#[verifier::external_body]
pub(crate) fn find_card_tokens(s: &str) -> (r: Vec<Vec<char>>)
    ensures
        r@.map_values(|t: Vec<char>| t@) == card_tokens(s@),
{
    let re = regex::Regex::new(CARD_PATTERN).unwrap();
    re.find_iter(s).map(|m| m.as_str().chars().collect()).collect()
}

/// The rank a token names, if any.
pub fn card_of_token(t: &Vec<char>) -> (r: Option<Card>)
    ensures
        r == token_card(t@),
{
    if t.len() == 2 {
        if t[0] == '1' && t[1] == '1' {
            assert(t@ =~= seq!['1', '1']);
            Some(Card::Ace)
        } else if t[0] == '1' && t[1] == '0' {
            assert(t@ =~= seq!['1', '0']);
            Some(Card::Ten)
        } else {
            assert(!(t@ =~= seq!['1', '1']) && !(t@ =~= seq!['1', '0']));
            None
        }
    } else if t.len() == 1 {
        let c = t[0];
        assert(t@ =~= seq![c]);
        if c == '1' || c == 'A' || c == 'a' {
            Some(Card::Ace)
        } else if c == '2' {
            Some(Card::Two)
        } else if c == '3' {
            Some(Card::Three)
        } else if c == '4' {
            Some(Card::Four)
        } else if c == '5' {
            Some(Card::Five)
        } else if c == '6' {
            Some(Card::Six)
        } else if c == '7' {
            Some(Card::Seven)
        } else if c == '8' {
            Some(Card::Eight)
        } else if c == '9' {
            Some(Card::Nine)
        } else if c == 'J' || c == 'j' || c == 'Q' || c == 'q' || c == 'K' || c == 'k' || c == 'X'
            || c == 'x' {
            Some(Card::Ten)
        } else {
            None
        }
    } else {
        None
    }
}

} // verus!
