use vstd::prelude::*;

use crate::config::Config;
use crate::tokens::{card_of_token, card_tokens, find_card_tokens, parse_tokens};

verus! {

/// A card rank; `Ten` stands for 10, J, Q and K alike.
#[derive(Clone, Copy, Debug, PartialEq, Eq, Structural)]
pub enum Card {
    Ace,
    Two,
    Three,
    Four,
    Five,
    Six,
    Seven,
    Eight,
    Nine,
    Ten,
}

/// The ranks in the order in which the search tries them.
pub open spec fn all_cards() -> Seq<Card> {
    seq![
        Card::Ace,
        Card::Two,
        Card::Three,
        Card::Four,
        Card::Five,
        Card::Six,
        Card::Seven,
        Card::Eight,
        Card::Nine,
        Card::Ten,
    ]
}

impl Card {
    /// The point value, an Ace counting 1.
    pub open spec fn spec_value(self) -> int {
        match self {
            Card::Ace => 1,
            Card::Two => 2,
            Card::Three => 3,
            Card::Four => 4,
            Card::Five => 5,
            Card::Six => 6,
            Card::Seven => 7,
            Card::Eight => 8,
            Card::Nine => 9,
            Card::Ten => 10,
        }
    }

    /// Where the rank's count stands in a deck.
    pub open spec fn index(self) -> int {
        self.spec_value() - 1
    }

    /// All ten ranks, Ace first and Ten last.
    pub fn iterator() -> (r: Vec<Card>)
        ensures
            r@ == all_cards(),
    {
        let mut v: Vec<Card> = Vec::new();
        v.push(Card::Ace);
        v.push(Card::Two);
        v.push(Card::Three);
        v.push(Card::Four);
        v.push(Card::Five);
        v.push(Card::Six);
        v.push(Card::Seven);
        v.push(Card::Eight);
        v.push(Card::Nine);
        v.push(Card::Ten);
        assert(v@ =~= all_cards());
        v
    }

    pub fn value(&self) -> (r: i32)
        ensures
            r == self.spec_value(),
            1 <= r <= 10,
    {
        match self {
            Card::Ace => 1,
            Card::Two => 2,
            Card::Three => 3,
            Card::Four => 4,
            Card::Five => 5,
            Card::Six => 6,
            Card::Seven => 7,
            Card::Eight => 8,
            Card::Nine => 9,
            Card::Ten => 10,
        }
    }
}

/// The longest hand whose score is computed; far more cards than a deck holds.
pub const MAX_HAND_LEN: usize = 200_000_000;

/// The sum of the point values, every Ace counting 1.
pub open spec fn sum_values(cs: Seq<Card>) -> int
    decreases cs.len(),
{
    if cs.len() == 0 {
        0
    } else {
        sum_values(cs.drop_last()) + cs.last().spec_value()
    }
}

/// The score of a hand: the sum, plus 10 when an Ace is held and the sum is at most 11.
pub open spec fn hand_score(cs: Seq<Card>) -> int {
    if cs.contains(Card::Ace) && sum_values(cs) <= 11 {
        sum_values(cs) + 10
    } else {
        sum_values(cs)
    }
}

/// The score used to compare finished hands: -100 when busted, 100 for a
/// two-card 21, the score otherwise.
pub open spec fn effective_score(cs: Seq<Card>) -> int {
    if hand_score(cs) > 21 {
        -100
    } else if hand_score(cs) == 21 && cs.len() == 2 {
        100
    } else {
        hand_score(cs)
    }
}

pub proof fn lemma_sum_bounds(cs: Seq<Card>)
    ensures
        cs.len() <= sum_values(cs) <= 10 * cs.len(),
    decreases cs.len(),
{
    if cs.len() > 0 {
        lemma_sum_bounds(cs.drop_last());
    }
}

/// A token that names no card.
#[derive(Clone, Debug)]
pub struct ParseError {
    pub token: Vec<char>,
}

/// The characters of each token.
pub open spec fn token_views(ts: Seq<Vec<char>>) -> Seq<Seq<char>> {
    ts.map_values(|t: Vec<char>| t@)
}

/// Whether `r` is what parsing tokens that `expected` describes gives.
pub open spec fn parsed_as(r: Result<Hand, ParseError>, expected: Result<Seq<Card>, Seq<char>>) -> bool {
    match expected {
        Ok(cs) => r is Ok && r->Ok_0.cards@ == cs,
        Err(t) => r is Err && r->Err_0.token@ == t,
    }
}

/// A failure at a prefix of the tokens is the failure of the whole.
proof fn lemma_parse_error_extends(ts: Seq<Seq<char>>, i: int)
    requires
        0 <= i <= ts.len(),
        parse_tokens(ts.subrange(0, i)) is Err,
    ensures
        parse_tokens(ts) == parse_tokens(ts.subrange(0, i)),
    decreases ts.len() - i,
{
    if i == ts.len() {
        assert(ts.subrange(0, i) =~= ts);
    } else {
        assert(ts.subrange(0, i + 1).drop_last() =~= ts.subrange(0, i));
        lemma_parse_error_extends(ts, i + 1);
    }
}

/// An ordered sequence of cards.
#[derive(Debug)]
pub struct Hand {
    pub cards: Vec<Card>,
}

impl Clone for Hand {
    fn clone(&self) -> (r: Hand)
        ensures
            r.cards@ == self.cards@,
    {
        Hand { cards: self.cards.clone() }
    }
}

impl Hand {
    pub fn empty() -> (r: Hand)
        ensures
            r.cards@ == Seq::<Card>::empty(),
    {
        Hand { cards: Vec::new() }
    }

    /// The hand the tokens name, in order, or the first token that names no card.
    pub fn from_tokens(tokens: &Vec<Vec<char>>) -> (r: Result<Hand, ParseError>)
        ensures
            parsed_as(r, parse_tokens(token_views(tokens@))),
    {
        let ghost ts = token_views(tokens@);
        let mut hand = Hand::empty();
        let mut i: usize = 0;
        while i < tokens.len()
            invariant
                ts == token_views(tokens@),
                0 <= i <= tokens@.len(),
                parse_tokens(ts.subrange(0, i as int)) == Ok::<Seq<Card>, Seq<char>>(hand.cards@),
            decreases tokens@.len() - i,
        {
            proof {
                assert(ts.subrange(0, i as int + 1).drop_last() =~= ts.subrange(0, i as int));
            }
            match card_of_token(&tokens[i]) {
                Some(c) => {
                    hand.cards.push(c);
                },
                None => {
                    proof {
                        lemma_parse_error_extends(ts, i as int + 1);
                    }
                    return Err(ParseError { token: tokens[i].clone() });
                },
            }
            i = i + 1;
        }
        assert(ts.subrange(0, tokens@.len() as int) =~= ts);
        Ok(hand)
    }

    /// The hand that the card tokens of `s` name, left to right.
    pub fn parse(s: &str) -> (r: Result<Hand, ParseError>)
        ensures
            parsed_as(r, parse_tokens(card_tokens(s@))),
    {
        let tokens = find_card_tokens(s);
        Hand::from_tokens(&tokens)
    }

    /// Whether the score of this hand can be computed.
    pub open spec fn within_limit(&self) -> bool {
        self.cards@.len() <= MAX_HAND_LEN
    }

    pub fn get_score(&self) -> (r: i32)
        requires
            self.within_limit(),
        ensures
            r == hand_score(self.cards@),
    {
        let ghost cs = self.cards@;
        let mut sum: i32 = 0;
        let mut has_ace = false;
        let mut i: usize = 0;
        while i < self.cards.len()
            invariant
                cs == self.cards@,
                cs.len() <= MAX_HAND_LEN,
                0 <= i <= cs.len(),
                sum == sum_values(cs.subrange(0, i as int)),
                has_ace == cs.subrange(0, i as int).contains(Card::Ace),
            decreases cs.len() - i,
        {
            let c = self.cards[i];
            proof {
                let p = cs.subrange(0, i as int + 1);
                assert(p.drop_last() =~= cs.subrange(0, i as int));
                lemma_sum_bounds(p);
                if p.contains(Card::Ace) && !has_ace {
                    let k = choose|k: int| 0 <= k < p.len() && p[k] == Card::Ace;
                    if k < i {
                        assert(cs.subrange(0, i as int)[k] == Card::Ace);
                    }
                }
                if has_ace {
                    let k = choose|k: int| 0 <= k < i && cs.subrange(0, i as int)[k] == Card::Ace;
                    assert(p[k] == Card::Ace);
                }
                if c == Card::Ace {
                    assert(p[i as int] == Card::Ace);
                }
            }
            sum = sum + c.value();
            if c == Card::Ace && !has_ace {
                has_ace = true;
            }
            i = i + 1;
        }
        assert(cs.subrange(0, cs.len() as int) =~= cs);
        if has_ace && sum <= 11 {
            sum = sum + 10;
        }
        sum
    }

    pub fn is_empty(&self) -> (r: bool)
        ensures
            r == (self.cards@.len() == 0),
    {
        self.cards.len() == 0
    }

    pub fn is_busted(&self) -> (r: bool)
        requires
            self.within_limit(),
        ensures
            r == (hand_score(self.cards@) > 21),
    {
        self.get_score() > 21
    }

    pub fn get_effective_score(&self) -> (r: i32)
        requires
            self.within_limit(),
        ensures
            r == effective_score(self.cards@),
    {
        let score = self.get_score();
        if score > 21 {
            -100
        } else if score == 21 && self.cards.len() == 2 {
            100
        } else {
            score
        }
    }
}


/// How many cards of a rank a full shoe holds.
pub open spec fn standard_count(c: Card) -> int {
    if c == Card::Ten {
        16
    } else {
        4
    }
}

/// How many cards of rank `c` the sequence holds.
pub open spec fn count_of(cs: Seq<Card>, c: Card) -> int
    decreases cs.len(),
{
    if cs.len() == 0 {
        0
    } else {
        count_of(cs.drop_last(), c) + if cs.last() == c {
            1int
        } else {
            0int
        }
    }
}

/// The rank whose count stands at position `i` of a deck.
pub open spec fn card_at(i: int) -> Card {
    all_cards()[i]
}

proof fn lemma_count_of_prefix(cs: Seq<Card>, i: int, c: Card)
    requires
        0 <= i <= cs.len(),
    ensures
        0 <= count_of(cs.subrange(0, i), c) <= count_of(cs, c),
    decreases cs.len() - i,
{
    if i == cs.len() {
        assert(cs.subrange(0, i) =~= cs);
        lemma_count_of_nonneg(cs, c);
    } else {
        assert(cs.subrange(0, i + 1).drop_last() =~= cs.subrange(0, i));
        lemma_count_of_prefix(cs, i + 1, c);
        lemma_count_of_nonneg(cs.subrange(0, i), c);
    }
}

pub proof fn lemma_count_of_nonneg(cs: Seq<Card>, c: Card)
    ensures
        count_of(cs, c) >= 0,
    decreases cs.len(),
{
    if cs.len() > 0 {
        lemma_count_of_nonneg(cs.drop_last(), c);
    }
}

/// Why a calculation cannot start.
#[derive(Clone, Copy, Debug, PartialEq, Eq, Structural)]
pub enum CalcError {
    /// The dealer or the player holds no card.
    EmptyHand,
    /// The player's score already exceeds 21.
    AlreadyBusted,
    /// The two hands hold more cards of some rank than a shoe does.
    ImpossibleHand,
}

/// The cards of each rank that are not in either hand, Ace first.
pub struct Deck {
    pub cards: [i32; 10],
}

/// Whether the two hands together hold no more cards of any rank than a shoe.
pub open spec fn hands_possible(dealer: Seq<Card>, player: Seq<Card>) -> bool {
    forall|c: Card| #[trigger] count_of(dealer, c) + count_of(player, c) <= standard_count(c)
}

impl Deck {
    /// The count of rank `c` left in the deck.
    pub open spec fn count(&self, c: Card) -> int {
        self.cards@[c.index()] as int
    }

    /// The full shoe of 52 cards.
    pub fn new() -> (r: Deck)
        ensures
            forall|c: Card| r.count(c) == standard_count(c),
    {
        Deck { cards: [4, 4, 4, 4, 4, 4, 4, 4, 4, 16] }
    }

    /// The counts, Ace first.
    pub fn iter(&self) -> (r: Vec<i32>)
        ensures
            r@ == self.cards@,
    {
        let mut v: Vec<i32> = Vec::new();
        let mut i: usize = 0;
        while i < 10
            invariant
                0 <= i <= 10,
                v@ == self.cards@.subrange(0, i as int),
            decreases 10 - i,
        {
            v.push(self.cards[i]);
            i = i + 1;
            assert(v@ =~= self.cards@.subrange(0, i as int));
        }
        assert(self.cards@.subrange(0, 10) =~= self.cards@);
        v
    }

    /// The count of rank `c` left in the deck.
    pub fn remaining(&self, c: Card) -> (r: i32)
        ensures
            r == self.count(c),
    {
        let i = (c.value() - 1) as usize;
        self.cards[i]
    }

    /// Draws one card of rank `c`.
    pub fn take(&mut self, c: Card)
        requires
            old(self).count(c) > 0,
        ensures
            final(self).cards@ == old(self).cards@.update(c.index(), (old(self).count(c) - 1) as i32),
    {
        let i = (c.value() - 1) as usize;
        let n = self.cards[i];
        self.cards[i] = n - 1;
    }

    /// Returns one card of rank `c` to the deck.
    pub fn put_back(&mut self, c: Card)
        requires
            old(self).count(c) < i32::MAX,
        ensures
            final(self).cards@ == old(self).cards@.update(c.index(), (old(self).count(c) + 1) as i32),
    {
        let i = (c.value() - 1) as usize;
        let n = self.cards[i];
        self.cards[i] = n + 1;
    }

    /// Removes the cards of `cs` from the deck, failing as soon as a rank runs out.
    fn remove_all(&mut self, cs: &Vec<Card>, Ghost(before): Ghost<Seq<Card>>) -> (ok: bool)
        requires
            forall|c: Card| #[trigger] old(self).count(c) == standard_count(c) - count_of(before, c),
            forall|c: Card| #[trigger] old(self).count(c) >= 0,
        ensures
            ok == (forall|c: Card| count_of(before, c) + count_of(cs@, c) <= standard_count(c)),
            ok ==> forall|c: Card| #[trigger] final(self).count(c) == standard_count(c) - count_of(before, c) - count_of(cs@, c),
    {
        let ghost s = cs@;
        let mut i: usize = 0;
        while i < cs.len()
            invariant
                s == cs@,
                0 <= i <= s.len(),
                forall|c: Card| #[trigger] self.count(c) == standard_count(c) - count_of(before, c) - count_of(s.subrange(0, i as int), c),
                forall|c: Card| #[trigger] self.count(c) >= 0,
            decreases s.len() - i,
        {
            let c = cs[i];
            proof {
                assert(s.subrange(0, i as int + 1).drop_last() =~= s.subrange(0, i as int));
                assert(s.subrange(0, i as int + 1).last() == c);
            }
            if self.remaining(c) == 0 {
                proof {
                    lemma_count_of_prefix(s, i as int + 1, c);
                }
                return false;
            }
            let ghost prev = *self;
            self.take(c);
            proof {
                assert forall|d: Card| #[trigger] self.count(d) == standard_count(d) - count_of(before, d) - count_of(s.subrange(0, i as int + 1), d) by {
                    assert(prev.count(d) == standard_count(d) - count_of(before, d) - count_of(s.subrange(0, i as int), d));
                    if d != c {
                        assert(d.index() != c.index());
                    }
                }
                assert forall|d: Card| #[trigger] self.count(d) >= 0 by {
                    if d != c {
                        assert(d.index() != c.index());
                        assert(prev.count(d) >= 0);
                    }
                }
            }
            i = i + 1;
        }
        proof {
            assert(s.subrange(0, s.len() as int) =~= s);
            assert forall|c: Card| count_of(before, c) + count_of(s, c) <= standard_count(c) by {
                assert(self.count(c) >= 0);
            }
        }
        true
    }

    /// The deck left once both hands are dealt from a full shoe; fails when the
    /// hands hold more cards of some rank than the shoe.
    pub fn from_hands(dealer: &Hand, player: &Hand) -> (r: Result<Deck, CalcError>)
        ensures
            r is Ok <==> hands_possible(dealer.cards@, player.cards@),
            r is Err ==> r == Err::<Deck, CalcError>(CalcError::ImpossibleHand),
            r is Ok ==> forall|c: Card| #[trigger] r->Ok_0.count(c) == standard_count(c) - count_of(dealer.cards@, c) - count_of(player.cards@, c),
    {
        let mut deck = Deck::new();
        assert forall|c: Card| #[trigger] deck.count(c) >= 0 by {
            assert(deck.count(c) == standard_count(c));
        }
        if !deck.remove_all(&dealer.cards, Ghost(Seq::empty())) {
            proof {
                assert forall|c: Card| count_of(Seq::<Card>::empty(), c) == 0 by {}
                let c = choose|c: Card| !(count_of(Seq::<Card>::empty(), c) + count_of(dealer.cards@, c) <= standard_count(c));
                lemma_count_of_nonneg(player.cards@, c);
            }
            return Err(CalcError::ImpossibleHand);
        }
        if !deck.remove_all(&player.cards, Ghost(dealer.cards@)) {
            return Err(CalcError::ImpossibleHand);
        }
        Ok(deck)
    }
}


/// The counts of all ten ranks added up.
pub open spec fn total_count(cs: Seq<Card>) -> int {
    count_of(cs, Card::Ace) + count_of(cs, Card::Two) + count_of(cs, Card::Three) + count_of(
        cs,
        Card::Four,
    ) + count_of(cs, Card::Five) + count_of(cs, Card::Six) + count_of(cs, Card::Seven) + count_of(
        cs,
        Card::Eight,
    ) + count_of(cs, Card::Nine) + count_of(cs, Card::Ten)
}

/// Every card of a sequence is counted under exactly one rank.
pub proof fn lemma_total_count(cs: Seq<Card>)
    ensures
        total_count(cs) == cs.len(),
    decreases cs.len(),
{
    if cs.len() > 0 {
        lemma_total_count(cs.drop_last());
    }
}

/// Two hands that a shoe can hold have at most 52 cards between them.
pub proof fn lemma_possible_hands_fit(dealer: Seq<Card>, player: Seq<Card>)
    requires
        hands_possible(dealer, player),
    ensures
        dealer.len() + player.len() <= 52,
{
    lemma_total_count(dealer);
    lemma_total_count(player);
    assert(count_of(dealer, Card::Ace) + count_of(player, Card::Ace) <= 4);
    assert(count_of(dealer, Card::Two) + count_of(player, Card::Two) <= 4);
    assert(count_of(dealer, Card::Three) + count_of(player, Card::Three) <= 4);
    assert(count_of(dealer, Card::Four) + count_of(player, Card::Four) <= 4);
    assert(count_of(dealer, Card::Five) + count_of(player, Card::Five) <= 4);
    assert(count_of(dealer, Card::Six) + count_of(player, Card::Six) <= 4);
    assert(count_of(dealer, Card::Seven) + count_of(player, Card::Seven) <= 4);
    assert(count_of(dealer, Card::Eight) + count_of(player, Card::Eight) <= 4);
    assert(count_of(dealer, Card::Nine) + count_of(player, Card::Nine) <= 4);
    assert(count_of(dealer, Card::Ten) + count_of(player, Card::Ten) <= 16);
}

/// The first reason, if any, why a calculation cannot start from the hands.
pub open spec fn validation_error(dealer: Seq<Card>, player: Seq<Card>) -> Option<CalcError> {
    if dealer.len() == 0 || player.len() == 0 {
        Some(CalcError::EmptyHand)
    } else if hand_score(player) > 21 {
        Some(CalcError::AlreadyBusted)
    } else if !hands_possible(dealer, player) {
        Some(CalcError::ImpossibleHand)
    } else {
        None
    }
}

/// Checks the hands before a calculation and builds the deck left after dealing
/// them: both hands must hold cards, the player must not be busted, and a shoe
/// must hold both hands, checked in that order.
pub fn validate(dealer: &Hand, player: &Hand) -> (r: Result<Deck, CalcError>)
    ensures
        match validation_error(dealer.cards@, player.cards@) {
            Some(e) => r == Err::<Deck, CalcError>(e),
            None => r is Ok,
        },
        r is Ok ==> forall|c: Card| #[trigger] r->Ok_0.count(c) == standard_count(c) - count_of(
            dealer.cards@,
            c,
        ) - count_of(player.cards@, c),
        r is Ok ==> dealer.cards@.len() + player.cards@.len() <= 52,
{
    if player.is_empty() || dealer.is_empty() {
        return Err(CalcError::EmptyHand);
    }
    if player.cards.len() > MAX_HAND_LEN {
        proof {
            lemma_sum_bounds(player.cards@);
        }
        return Err(CalcError::AlreadyBusted);
    }
    if player.is_busted() {
        return Err(CalcError::AlreadyBusted);
    }
    let r = Deck::from_hands(dealer, player);
    proof {
        if r is Ok {
            lemma_possible_hands_fit(dealer.cards@, player.cards@);
        }
    }
    r
}

/// Whether the dealer draws another card under the configuration.
pub open spec fn dealer_should_draw(dealer: Seq<Card>, config: Config) -> bool {
    hand_score(dealer) <= config.spec_draw_limit()
}

/// Whether the dealer draws another card: while the score is at most the
/// configuration's draw limit.
pub fn dealer_draws(dealer: &Hand, config: &Config) -> (r: bool)
    requires
        dealer.within_limit(),
    ensures
        r == dealer_should_draw(dealer.cards@, *config),
{
    dealer.get_score() <= config.draw_limit()
}

/// The result of a finished round for the player.
#[derive(Clone, Copy, Debug, PartialEq, Eq, Structural)]
pub enum Outcome {
    Win,
    Draw,
    Loss,
}

/// The player's result once the dealer has stopped drawing: decided by the
/// effective scores, a tie counting as a loss when the player is busted.
pub open spec fn spec_stand_outcome(dealer: Seq<Card>, player: Seq<Card>) -> Outcome {
    if effective_score(dealer) < effective_score(player) {
        Outcome::Win
    } else if effective_score(dealer) > effective_score(player) {
        Outcome::Loss
    } else if hand_score(player) > 21 {
        Outcome::Loss
    } else {
        Outcome::Draw
    }
}

/// The player's result once the dealer has stopped drawing.
pub fn stand_outcome(dealer: &Hand, player: &Hand) -> (r: Outcome)
    requires
        dealer.within_limit(),
        player.within_limit(),
    ensures
        r == spec_stand_outcome(dealer.cards@, player.cards@),
{
    let d = dealer.get_effective_score();
    let p = player.get_effective_score();
    if d < p {
        Outcome::Win
    } else if d > p {
        Outcome::Loss
    } else if player.is_busted() {
        Outcome::Loss
    } else {
        Outcome::Draw
    }
}

/// Drawing a card and putting it back leaves the deck's counts as they were.
pub proof fn lemma_take_put_back(counts: Seq<i32>, c: Card)
    requires
        counts.len() == 10,
        counts[c.index()] > 0,
    ensures
        ({
            let taken = counts.update(c.index(), (counts[c.index()] - 1) as i32);
            taken.update(c.index(), (taken[c.index()] + 1) as i32) == counts
        }),
{
    let taken = counts.update(c.index(), (counts[c.index()] - 1) as i32);
    assert(taken.update(c.index(), (taken[c.index()] + 1) as i32) =~= counts);
}


impl Deck {
    /// The number of cards left in the deck.
    pub open spec fn total(&self) -> int {
        self.cards@[0] as int + self.cards@[1] as int + self.cards@[2] as int + self.cards@[3] as int
            + self.cards@[4] as int + self.cards@[5] as int + self.cards@[6] as int
            + self.cards@[7] as int + self.cards@[8] as int + self.cards@[9] as int
    }

    /// Whether no count is negative.
    pub open spec fn counts_valid(&self) -> bool {
        forall|i: int| 0 <= i < 10 ==> #[trigger] self.cards@[i] >= 0
    }
}


/// Hands that both hold cards, with the player not busted, but that claim more
/// than sixteen tens between them are refused as impossible.
pub proof fn lemma_too_many_tens(dealer: Seq<Card>, player: Seq<Card>)
    requires
        dealer.len() > 0,
        player.len() > 0,
        hand_score(player) <= 21,
        count_of(dealer, Card::Ten) + count_of(player, Card::Ten) >= 17,
    ensures
        validation_error(dealer, player) == Some(CalcError::ImpossibleHand),
{
    assert(!(count_of(dealer, Card::Ten) + count_of(player, Card::Ten) <= standard_count(Card::Ten)));
}

} // verus!
