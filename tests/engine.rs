use blackjack::calc::{dealer_draws, stand_outcome, validate, CalcError, Card, Deck, Hand, Outcome};
use blackjack::config::{Config, Decision};
use blackjack::engine::{calculate, from_weighted_result, prefers_stand, Odds, WeightedResult};

#[derive(Debug, Clone, Copy, PartialEq)]
struct Triple {
    win: f64,
    draw: f64,
    loss: f64,
}

impl Odds for Triple {
    fn spec_win() -> Self {
        Self::win()
    }
    fn spec_draw() -> Self {
        Self::draw()
    }
    fn spec_lose() -> Self {
        Self::lose()
    }
    fn spec_zero() -> Self {
        Self::zero()
    }
    fn spec_plus(&self, other: &Self) -> Self {
        self.plus(other)
    }
    fn spec_scaled(&self, w: i32) -> Self {
        self.scaled(w)
    }
    fn spec_divided(&self, w: i32) -> Self {
        self.divided(w)
    }
    fn spec_wins_more(&self, other: &Self) -> bool {
        self.wins_more(other)
    }
    fn spec_loses_less(&self, other: &Self) -> bool {
        self.loses_less(other)
    }
    fn win() -> Self {
        Triple { win: 1.0, draw: 0.0, loss: 0.0 }
    }
    fn draw() -> Self {
        Triple { win: 0.0, draw: 1.0, loss: 0.0 }
    }
    fn lose() -> Self {
        Triple { win: 0.0, draw: 0.0, loss: 1.0 }
    }
    fn zero() -> Self {
        Triple { win: 0.0, draw: 0.0, loss: 0.0 }
    }
    fn plus(&self, o: &Self) -> Self {
        Triple { win: self.win + o.win, draw: self.draw + o.draw, loss: self.loss + o.loss }
    }
    fn scaled(&self, w: i32) -> Self {
        let w = w as f64;
        Triple { win: self.win * w, draw: self.draw * w, loss: self.loss * w }
    }
    fn divided(&self, w: i32) -> Self {
        let w = w as f64;
        Triple { win: self.win / w, draw: self.draw / w, loss: self.loss / w }
    }
    fn wins_more(&self, other: &Self) -> bool {
        self.win > other.win
    }
    fn loses_less(&self, other: &Self) -> bool {
        self.loss < other.loss
    }
}

fn hand(cards: &[Card]) -> Hand {
    Hand { cards: cards.to_vec() }
}

fn config(soft_17: bool, decision: Decision) -> Config {
    Config { soft_17, decision }
}

fn sums_to_one(t: &Triple) -> bool {
    (t.win + t.draw + t.loss - 1.0).abs() < 1e-9
}

#[test]
fn seven_against_sixteen() {
    let dealer = hand(&[Card::Seven]);
    let player = hand(&[Card::Ten, Card::Six]);
    let r = calculate::<Triple>(&dealer, &player, &config(true, Decision::MostWin)).unwrap();
    assert!(sums_to_one(&r.chance_when_hit));
    assert!(sums_to_one(&r.chance_when_stand));
    assert!(r.chance_when_stand.loss > r.chance_when_stand.win);
    // standing on 16 wins only when the dealer busts, and never draws
    assert_eq!(r.chance_when_stand.draw, 0.0);
}

#[test]
fn chances_sum_to_one_for_several_hands() {
    let cases: Vec<(Vec<Card>, Vec<Card>, bool, Decision)> = vec![
        (vec![Card::Ten], vec![Card::Ten, Card::Nine], true, Decision::MostWin),
        (vec![Card::Ace], vec![Card::Ten, Card::Ace], false, Decision::LeastLoss),
        (vec![Card::Five], vec![Card::Ten, Card::Eight], false, Decision::MostWin),
        (vec![Card::Ten, Card::Seven], vec![Card::Nine, Card::Nine], true, Decision::LeastLoss),
    ];
    for (d, p, soft, decision) in cases {
        let r = calculate::<Triple>(&hand(&d), &hand(&p), &config(soft, decision)).unwrap();
        assert!(sums_to_one(&r.chance_when_hit));
        assert!(sums_to_one(&r.chance_when_stand));
    }
}

#[test]
fn dealer_already_standing_gives_certain_outcome() {
    let dealer = hand(&[Card::Ten, Card::Eight]);
    let c = config(true, Decision::MostWin);
    let win = calculate::<Triple>(&dealer, &hand(&[Card::Ten, Card::Nine]), &c).unwrap();
    assert_eq!(win.chance_when_stand, Triple::win());
    let draw = calculate::<Triple>(&dealer, &hand(&[Card::Ten, Card::Eight]), &c).unwrap();
    assert_eq!(draw.chance_when_stand, Triple::draw());
    let loss = calculate::<Triple>(&dealer, &hand(&[Card::Ten, Card::Seven]), &c).unwrap();
    assert_eq!(loss.chance_when_stand, Triple::lose());
}

#[test]
fn identical_inputs_identical_results() {
    let dealer = hand(&[Card::Six]);
    let player = hand(&[Card::Ten, Card::Three]);
    let c = config(false, Decision::LeastLoss);
    let a = calculate::<Triple>(&dealer, &player, &c).unwrap();
    let b = calculate::<Triple>(&dealer, &player, &c).unwrap();
    assert_eq!(a.chance_when_hit, b.chance_when_hit);
    assert_eq!(a.chance_when_stand, b.chance_when_stand);
}

#[test]
fn caller_hands_are_unchanged() {
    let dealer = hand(&[Card::Nine]);
    let player = hand(&[Card::Ten, Card::Five]);
    let _ = calculate::<Triple>(&dealer, &player, &config(true, Decision::MostWin)).unwrap();
    assert_eq!(dealer.cards, vec![Card::Nine]);
    assert_eq!(player.cards, vec![Card::Ten, Card::Five]);
}

#[test]
fn policies_pick_different_branches() {
    // standing wins more often but also loses more often than hitting
    assert!(prefers_stand(Decision::MostWin, true, false));
    assert!(!prefers_stand(Decision::LeastLoss, true, false));
    assert!(!prefers_stand(Decision::MostWin, false, true));
    assert!(prefers_stand(Decision::LeastLoss, false, true));
}

#[test]
fn policies_can_change_the_hit_chance() {
    let mut found = false;
    'search: for d in [Card::Two, Card::Three, Card::Four, Card::Ten, Card::Seven] {
        for p in [Card::Two, Card::Three, Card::Four, Card::Five, Card::Six] {
            let dealer = hand(&[d]);
            let player = hand(&[Card::Ten, p]);
            let a = calculate::<Triple>(&dealer, &player, &config(true, Decision::MostWin)).unwrap();
            let b = calculate::<Triple>(&dealer, &player, &config(true, Decision::LeastLoss)).unwrap();
            assert_eq!(a.chance_when_stand, b.chance_when_stand);
            if a.chance_when_hit != b.chance_when_hit {
                found = true;
                break 'search;
            }
        }
    }
    assert!(found);
}

#[test]
fn empty_hand_is_refused() {
    let c = config(true, Decision::MostWin);
    let r = calculate::<Triple>(&Hand::empty(), &hand(&[Card::Two]), &c);
    assert!(matches!(r, Err(CalcError::EmptyHand)));
    let r = calculate::<Triple>(&hand(&[Card::Two]), &Hand::empty(), &c);
    assert!(matches!(r, Err(CalcError::EmptyHand)));
}

#[test]
fn busted_player_is_refused() {
    let r = calculate::<Triple>(
        &hand(&[Card::Two]),
        &hand(&[Card::Ten, Card::Ten, Card::Five]),
        &config(true, Decision::MostWin),
    );
    assert!(matches!(r, Err(CalcError::AlreadyBusted)));
}

#[test]
fn seventeen_tens_are_impossible() {
    let dealer = hand(&[Card::Ten; 15]);
    let player = hand(&[Card::Ten, Card::Ten]);
    assert!(matches!(validate(&dealer, &player), Err(CalcError::ImpossibleHand)));
    let r = calculate::<Triple>(&dealer, &player, &config(true, Decision::MostWin));
    assert!(matches!(r, Err(CalcError::ImpossibleHand)));
    let sixteen = hand(&[Card::Ten; 14]);
    assert!(validate(&sixteen, &player).is_ok());
}

#[test]
fn five_aces_are_impossible() {
    let dealer = hand(&[Card::Ace, Card::Ace, Card::Ace]);
    let player = hand(&[Card::Ace, Card::Ace]);
    assert!(matches!(validate(&dealer, &player), Err(CalcError::ImpossibleHand)));
}

#[test]
fn deck_after_dealing() {
    let full = Deck::new();
    assert_eq!(full.iter(), vec![4, 4, 4, 4, 4, 4, 4, 4, 4, 16]);
    assert_eq!(full.iter().iter().sum::<i32>(), 52);
    let deck = validate(&hand(&[Card::Ace]), &hand(&[Card::Ten, Card::Ace])).unwrap();
    assert_eq!(deck.iter(), vec![2, 4, 4, 4, 4, 4, 4, 4, 4, 15]);
    assert_eq!(deck.remaining(Card::Ace), 2);
}

#[test]
fn take_and_put_back_restore_the_deck() {
    let mut deck = Deck::new();
    deck.take(Card::Five);
    assert_eq!(deck.remaining(Card::Five), 3);
    deck.put_back(Card::Five);
    assert_eq!(deck.iter(), Deck::new().iter());
}

#[test]
fn dealer_draw_limits() {
    let soft_seventeen = hand(&[Card::Ace, Card::Six]);
    assert!(!dealer_draws(&soft_seventeen, &config(true, Decision::MostWin)));
    assert!(dealer_draws(&soft_seventeen, &config(false, Decision::MostWin)));
    let sixteen = hand(&[Card::Ten, Card::Six]);
    assert!(dealer_draws(&sixteen, &config(true, Decision::MostWin)));
    let eighteen = hand(&[Card::Ten, Card::Eight]);
    assert!(!dealer_draws(&eighteen, &config(false, Decision::MostWin)));
}

#[test]
fn stand_outcomes() {
    let natural = hand(&[Card::Ace, Card::Ten]);
    let three_card = hand(&[Card::Seven, Card::Seven, Card::Seven]);
    assert_eq!(stand_outcome(&three_card, &natural), Outcome::Win);
    assert_eq!(stand_outcome(&natural, &three_card), Outcome::Loss);
    assert_eq!(stand_outcome(&three_card, &three_card), Outcome::Draw);
    let busted = hand(&[Card::Ten, Card::Ten, Card::Two]);
    assert_eq!(stand_outcome(&three_card, &busted), Outcome::Loss);
    assert_eq!(stand_outcome(&busted, &three_card), Outcome::Win);
    assert_eq!(stand_outcome(&busted, &busted), Outcome::Loss);
}

#[test]
fn default_config() {
    let c = Config::default();
    assert!(c.soft_17);
    assert_eq!(c.decision, Decision::MostWin);
}

#[test]
fn twenty_against_twenty_exact() {
    let dealer = hand(&[Card::Ten, Card::Ten]);
    let player = hand(&[Card::Ten, Card::Ten]);
    let r = calculate::<Triple>(&dealer, &player, &config(true, Decision::MostWin)).unwrap();
    assert_eq!(r.chance_when_hit, Triple { win: 4.0 / 48.0, draw: 0.0, loss: 44.0 / 48.0 });
    assert_eq!(r.chance_when_stand, Triple::draw());
}

#[test]
fn natural_against_ten_exact() {
    let dealer = hand(&[Card::Ten]);
    let player = hand(&[Card::Ace, Card::Ten]);
    let r = calculate::<Triple>(&dealer, &player, &config(true, Decision::MostWin)).unwrap();
    assert_eq!(r.chance_when_stand, Triple { win: 46.0 / 49.0, draw: 3.0 / 49.0, loss: 0.0 });
}

#[test]
fn policy_leaves_stand_chance_unchanged() {
    let dealer = hand(&[Card::Nine]);
    let player = hand(&[Card::Ten, Card::Four]);
    let a = calculate::<Triple>(&dealer, &player, &config(false, Decision::MostWin)).unwrap();
    let b = calculate::<Triple>(&dealer, &player, &config(false, Decision::LeastLoss)).unwrap();
    assert_eq!(a.chance_when_stand, b.chance_when_stand);
}

#[test]
fn weighted_average_of_branches() {
    let results = vec![
        WeightedResult::of(3, Triple::win()),
        WeightedResult::of(1, Triple::lose()),
    ];
    let r = from_weighted_result(&results);
    assert_eq!(r, Triple { win: 0.75, draw: 0.0, loss: 0.25 });
}

#[test]
fn weighted_average_of_many_branches() {
    let mut results = Vec::new();
    for i in 0..11 {
        let r = if i < 8 { Triple::win() } else { Triple::draw() };
        results.push(WeightedResult::of(100, r));
    }
    let r = from_weighted_result(&results);
    assert_eq!(r, Triple { win: 800.0 / 1100.0, draw: 300.0 / 1100.0, loss: 0.0 });
}
