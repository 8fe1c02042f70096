//! The exhaustive outcome search: every card that can come next is tried, each
//! branch weighted by how many cards of that rank are left.
use vstd::prelude::*;

use crate::calc::{
    card_at, count_of, dealer_draws, hand_score, hands_possible, lemma_total_count, spec_stand_outcome,
    stand_outcome, standard_count, sum_values, lemma_count_of_nonneg,
    validate, validation_error, CalcError, Card, Deck, Hand, Outcome,
};
use crate::config::{dealer_limit, Config, Decision};

verus! {

/// The arithmetic of outcome probabilities that the search aggregates. Each
/// operation computes the spec function of the same name, so that what the
/// search returns is a function of the deal alone; an implementation written
/// outside verified code gives each spec function its operation's body.
pub trait Odds: Sized {
    spec fn spec_win() -> Self;

    spec fn spec_draw() -> Self;

    spec fn spec_lose() -> Self;

    /// The chances that are all zero.
    spec fn spec_zero() -> Self;

    /// The sum of two chance vectors.
    spec fn spec_plus(&self, other: &Self) -> Self;

    /// The chances multiplied by `w`.
    spec fn spec_scaled(&self, w: i32) -> Self;

    /// The chances divided by `w`.
    spec fn spec_divided(&self, w: i32) -> Self;

    spec fn spec_wins_more(&self, other: &Self) -> bool;

    spec fn spec_loses_less(&self, other: &Self) -> bool;

    /// The certain win.
    fn win() -> (r: Self)
        ensures
            r == Self::spec_win(),
    ;

    /// The certain draw.
    fn draw() -> (r: Self)
        ensures
            r == Self::spec_draw(),
    ;

    /// The certain loss.
    fn lose() -> (r: Self)
        ensures
            r == Self::spec_lose(),
    ;

    /// All zero.
    fn zero() -> (r: Self)
        ensures
            r == Self::spec_zero(),
    ;

    /// The sum of two chance vectors.
    fn plus(&self, other: &Self) -> (r: Self)
        ensures
            r == self.spec_plus(other),
    ;

    /// The chances multiplied by `w`.
    fn scaled(&self, w: i32) -> (r: Self)
        ensures
            r == self.spec_scaled(w),
    ;

    /// The chances divided by `w`.
    fn divided(&self, w: i32) -> (r: Self)
        ensures
            r == self.spec_divided(w),
    ;

    /// Whether the chance of winning is higher than in `other`.
    fn wins_more(&self, other: &Self) -> (r: bool)
        ensures
            r == self.spec_wins_more(other),
    ;

    /// Whether the chance of losing is lower than in `other`.
    fn loses_less(&self, other: &Self) -> (r: bool)
        ensures
            r == self.spec_loses_less(other),
    ;
}

/// The results, each multiplied by its weight, added up from the first.
pub open spec fn weighted_sum<P: Odds>(rs: Seq<(int, P)>) -> P
    decreases rs.len(),
{
    if rs.len() == 0 {
        P::spec_zero()
    } else {
        weighted_sum::<P>(rs.drop_last()).spec_plus(&rs.last().1.spec_scaled(rs.last().0 as i32))
    }
}

/// The weights added up.
pub open spec fn weight_total<P>(rs: Seq<(int, P)>) -> int
    decreases rs.len(),
{
    if rs.len() == 0 {
        0
    } else {
        weight_total(rs.drop_last()) + rs.last().0
    }
}

/// The weighted sum of the results divided by the total weight.
pub open spec fn weighted_average<P: Odds>(rs: Seq<(int, P)>) -> P {
    weighted_sum::<P>(rs).spec_divided(weight_total(rs) as i32)
}

/// Each branch result as its weight and its chances.
pub open spec fn weighted_view<P>(rs: Seq<WeightedResult<P>>) -> Seq<(int, P)> {
    rs.map_values(|w: WeightedResult<P>| (w.weight as int, w.result))
}

proof fn lemma_weight_total_nonneg<P>(rs: Seq<(int, P)>)
    requires
        forall|i: int| 0 <= i < rs.len() ==> 0 <= #[trigger] rs[i].0,
    ensures
        0 <= weight_total(rs),
    decreases rs.len(),
{
    if rs.len() > 0 {
        lemma_weight_total_nonneg(rs.drop_last());
    }
}

/// With no negative weight, every prefix weighs at most the whole.
proof fn lemma_weight_total_prefix<P>(rs: Seq<(int, P)>, j: int)
    requires
        forall|i: int| 0 <= i < rs.len() ==> 0 <= #[trigger] rs[i].0,
        0 <= j <= rs.len(),
    ensures
        0 <= weight_total(rs.subrange(0, j)) <= weight_total(rs),
    decreases rs.len() - j,
{
    let pre = rs.subrange(0, j);
    assert forall|i: int| 0 <= i < pre.len() implies 0 <= #[trigger] pre[i].0 by {
        assert(pre[i] == rs[i]);
    }
    lemma_weight_total_nonneg(pre);
    if j == rs.len() {
        assert(pre =~= rs);
    } else {
        assert(rs.subrange(0, j + 1).drop_last() =~= pre);
        lemma_weight_total_prefix(rs, j + 1);
    }
}

/// With every weight in 0..=52, the total is at most 52 per result.
proof fn lemma_weight_total_bound<P>(rs: Seq<(int, P)>)
    requires
        forall|i: int| 0 <= i < rs.len() ==> 0 <= #[trigger] rs[i].0 <= 52,
    ensures
        0 <= weight_total(rs) <= 52 * rs.len(),
    decreases rs.len(),
{
    if rs.len() > 0 {
        lemma_weight_total_bound(rs.drop_last());
    }
}

/// The average of the results, each counted `weight` times: the weighted sum,
/// added up from the first result, divided by the total weight.
pub fn from_weighted_result<P: Odds>(results: &Vec<WeightedResult<P>>) -> (r: P)
    requires
        forall|i: int| 0 <= i < results@.len() ==> 0 <= #[trigger] results@[i].weight,
        weight_total(weighted_view(results@)) <= i32::MAX,
    ensures
        r == weighted_average::<P>(weighted_view(results@)),
{
    let ghost rs = weighted_view(results@);
    let mut acc = P::zero();
    let mut total: i32 = 0;
    let mut i: usize = 0;
    while i < results.len()
        invariant
            rs == weighted_view(results@),
            forall|j: int| 0 <= j < rs.len() ==> 0 <= #[trigger] rs[j].0,
            weight_total(rs) <= i32::MAX,
            0 <= i <= results@.len(),
            acc == weighted_sum::<P>(rs.subrange(0, i as int)),
            total == weight_total(rs.subrange(0, i as int)),
        decreases results@.len() - i,
    {
        let w = results[i].weight;
        assert(rs.subrange(0, i as int + 1).drop_last() =~= rs.subrange(0, i as int));
        proof {
            lemma_weight_total_prefix(rs, i as int + 1);
        }
        assert(total + w <= i32::MAX);
        let term = results[i].result.scaled(w);
        acc = acc.plus(&term);
        total = total + w;
        i = i + 1;
    }
    assert(rs.subrange(0, results@.len() as int) =~= rs);
    acc.divided(total)
}

/// Whether the policy stands rather than hits again, given whether standing
/// wins more often and whether it loses less often.
pub open spec fn spec_prefers_stand(decision: Decision, stand_wins_more: bool, stand_loses_less: bool) -> bool {
    match decision {
        Decision::MostWin => stand_wins_more,
        Decision::LeastLoss => stand_loses_less,
    }
}

pub fn prefers_stand(decision: Decision, stand_wins_more: bool, stand_loses_less: bool) -> (r: bool)
    ensures
        r == spec_prefers_stand(decision, stand_wins_more, stand_loses_less),
{
    match decision {
        Decision::MostWin => stand_wins_more,
        Decision::LeastLoss => stand_loses_less,
    }
}

/// The two policies choose differently wherever standing wins more often but
/// does not lose less often than hitting, or loses less often without winning
/// more often.
pub proof fn lemma_policies_differ(stand_wins_more: bool, stand_loses_less: bool)
    requires
        stand_wins_more != stand_loses_less,
    ensures
        spec_prefers_stand(Decision::MostWin, stand_wins_more, stand_loses_less) != spec_prefers_stand(
            Decision::LeastLoss,
            stand_wins_more,
            stand_loses_less,
        ),
{
}

/// A branch result with the number of cards that lead to it.
pub struct WeightedResult<P> {
    pub weight: i32,
    pub result: P,
}

impl<P> WeightedResult<P> {
    pub fn of(weight: i32, result: P) -> (r: WeightedResult<P>)
        ensures
            r.weight == weight,
            r.result == result,
    {
        WeightedResult { weight, result }
    }
}

/// The chances of hitting now and of standing now.
pub struct CalculationResult<P> {
    pub chance_when_hit: P,
    pub chance_when_stand: P,
}

/// The cards left, counting only positive counts: what each draw decreases.
pub open spec fn pos_total(counts: Seq<i32>) -> nat {
    pos(counts[0]) + pos(counts[1]) + pos(counts[2]) + pos(counts[3]) + pos(counts[4]) + pos(counts[5])
        + pos(counts[6]) + pos(counts[7]) + pos(counts[8]) + pos(counts[9])
}

/// A count, or zero when it is negative.
pub open spec fn pos(x: i32) -> nat {
    if x > 0 {
        x as nat
    } else {
        0
    }
}

/// The counts after one card at position `i` is drawn.
pub open spec fn drawn(counts: Seq<i32>, i: int) -> Seq<i32> {
    counts.update(i, (counts[i] - 1) as i32)
}

/// Whether the card at position `i` can be drawn.
pub open spec fn can_draw(counts: Seq<i32>, i: int) -> bool {
    counts.len() == 10 && 0 <= i < 10 && counts[i] > 0
}

/// Each draw leaves one card fewer.
proof fn lemma_drawn_total(counts: Seq<i32>, i: int)
    requires
        can_draw(counts, i),
    ensures
        pos_total(drawn(counts, i)) + 1 == pos_total(counts),
{
    let d = drawn(counts, i);
    assert forall|j: int| 0 <= j < 10 && j != i implies #[trigger] d[j] == counts[j] by {}
    assert(pos(d[i]) + 1 == pos(counts[i]));
}

/// The certain chances of an outcome.
pub open spec fn outcome_odds<P: Odds>(o: Outcome) -> P {
    match o {
        Outcome::Win => P::spec_win(),
        Outcome::Draw => P::spec_draw(),
        Outcome::Loss => P::spec_lose(),
    }
}

/// The chances of standing with `player` while the dealer plays out from
/// `dealer` with the cards `counts` left: while the dealer's score is at most
/// the limit, the weighted average over every rank left of the dealer drawing
/// it; then the certain chances of comparing the hands.
pub open spec fn spec_stand<P: Odds>(counts: Seq<i32>, dealer: Seq<Card>, player: Seq<Card>, soft_17: bool) -> P
    decreases pos_total(counts), 1nat, 0nat,
{
    if hand_score(dealer) <= dealer_limit(soft_17) {
        weighted_average::<P>(stand_results::<P>(counts, dealer, player, soft_17, 10))
    } else {
        outcome_odds::<P>(spec_stand_outcome(dealer, player))
    }
}

/// The weighted branches of the dealer drawing each of the first `k` ranks
/// that are left.
pub open spec fn stand_results<P: Odds>(counts: Seq<i32>, dealer: Seq<Card>, player: Seq<Card>, soft_17: bool, k: nat) -> Seq<(int, P)>
    decreases pos_total(counts), 0nat, k,
    via stand_results_decreases::<P>
{
    if k == 0 {
        seq![]
    } else {
        let prev = stand_results::<P>(counts, dealer, player, soft_17, (k - 1) as nat);
        let i = k - 1;
        if can_draw(counts, i) {
            prev.push((counts[i] as int, spec_stand::<P>(drawn(counts, i), dealer.push(card_at(i)), player, soft_17)))
        } else {
            prev
        }
    }
}

/// The chances of the player holding `player` after a draw: a loss when
/// busted, else the branch that the policy takes between standing and hitting again.
pub open spec fn spec_choice<P: Odds>(counts: Seq<i32>, dealer: Seq<Card>, player: Seq<Card>, config: Config) -> P
    decreases pos_total(counts), 2nat, 0nat,
{
    if hand_score(player) > 21 {
        P::spec_lose()
    } else {
        let s = spec_stand::<P>(counts, dealer, player, config.soft_17);
        let h = spec_hit::<P>(counts, dealer, player, config);
        if spec_prefers_stand(config.decision, s.spec_wins_more(&h), s.spec_loses_less(&h)) {
            s
        } else {
            h
        }
    }
}

/// The chances of the player drawing one card now: the weighted average over
/// every rank left of the policy's outcome after drawing it.
pub open spec fn spec_hit<P: Odds>(counts: Seq<i32>, dealer: Seq<Card>, player: Seq<Card>, config: Config) -> P
    decreases pos_total(counts), 1nat, 0nat,
{
    weighted_average::<P>(hit_results::<P>(counts, dealer, player, config, 10))
}

/// The weighted branches of the player drawing each of the first `k` ranks
/// that are left.
pub open spec fn hit_results<P: Odds>(counts: Seq<i32>, dealer: Seq<Card>, player: Seq<Card>, config: Config, k: nat) -> Seq<(int, P)>
    decreases pos_total(counts), 0nat, k,
    via hit_results_decreases::<P>
{
    if k == 0 {
        seq![]
    } else {
        let prev = hit_results::<P>(counts, dealer, player, config, (k - 1) as nat);
        let i = k - 1;
        if can_draw(counts, i) {
            prev.push((counts[i] as int, spec_choice::<P>(drawn(counts, i), dealer, player.push(card_at(i)), config)))
        } else {
            prev
        }
    }
}

#[via_fn]
proof fn stand_results_decreases<P: Odds>(counts: Seq<i32>, dealer: Seq<Card>, player: Seq<Card>, soft_17: bool, k: nat) {
    if k > 0 && can_draw(counts, k - 1) {
        lemma_drawn_total(counts, k - 1);
    }
}

#[via_fn]
proof fn hit_results_decreases<P: Odds>(counts: Seq<i32>, dealer: Seq<Card>, player: Seq<Card>, config: Config, k: nat) {
    if k > 0 && can_draw(counts, k - 1) {
        lemma_drawn_total(counts, k - 1);
    }
}

/// The counts left once both hands are dealt from a full shoe, Ace first.
pub open spec fn dealt_counts(dealer: Seq<Card>, player: Seq<Card>) -> Seq<i32> {
    Seq::new(10, |i: int| (standard_count(card_at(i)) - count_of(dealer, card_at(i)) - count_of(player, card_at(i))) as i32)
}

/// The stand chance depends on the dealer's rule alone, not on the player's policy.
pub proof fn lemma_stand_ignores_policy<P: Odds>(dealer: Seq<Card>, player: Seq<Card>, a: Config, b: Config)
    requires
        a.soft_17 == b.soft_17,
    ensures
        spec_stand::<P>(dealt_counts(dealer, player), dealer, player, a.soft_17) == spec_stand::<P>(
            dealt_counts(dealer, player),
            dealer,
            player,
            b.soft_17,
        ),
{
}

/// What a search state must satisfy: no negative count, and the cards in the
/// hands and the deck together no more than a shoe.
pub open spec fn search_state(deck: Deck, dealer: Seq<Card>, player: Seq<Card>) -> bool {
    &&& deck.counts_valid()
    &&& dealer.len() + player.len() + deck.total() <= 52
}

proof fn lemma_take_total(deck: Deck, taken: Deck, c: Card)
    requires
        deck.counts_valid(),
        deck.count(c) > 0,
        taken.cards@ == deck.cards@.update(c.index(), (deck.count(c) - 1) as i32),
    ensures
        taken.total() == deck.total() - 1,
        taken.counts_valid(),
        deck.count(c) <= deck.total(),
{
    assert(taken.cards@[c.index()] == deck.cards@[c.index()] - 1);
    assert forall|i: int| 0 <= i < 10 && i != c.index() implies taken.cards@[i] == deck.cards@[i] by {}
    assert(deck.cards@[0] >= 0 && deck.cards@[1] >= 0 && deck.cards@[2] >= 0 && deck.cards@[3] >= 0
        && deck.cards@[4] >= 0 && deck.cards@[5] >= 0 && deck.cards@[6] >= 0 && deck.cards@[7] >= 0
        && deck.cards@[8] >= 0 && deck.cards@[9] >= 0);
}

proof fn lemma_count_within_total(deck: Deck, c: Card)
    requires
        deck.counts_valid(),
    ensures
        deck.count(c) <= deck.total(),
{
    assert(deck.cards@[0] >= 0 && deck.cards@[1] >= 0 && deck.cards@[2] >= 0 && deck.cards@[3] >= 0
        && deck.cards@[4] >= 0 && deck.cards@[5] >= 0 && deck.cards@[6] >= 0 && deck.cards@[7] >= 0
        && deck.cards@[8] >= 0 && deck.cards@[9] >= 0);
}

/// Tries one card for the dealer: draws it, goes on with the dealer's play and
/// puts the card back.
fn dealer_branch<P: Odds>(deck: &mut Deck, dealer: &mut Hand, player: &Hand, config: &Config, c: Card) -> (r: P)
    requires
        search_state(*old(deck), old(dealer).cards@, player.cards@),
        old(deck).count(c) > 0,
    ensures
        final(deck).cards@ == old(deck).cards@,
        final(dealer).cards@ == old(dealer).cards@,
        r == spec_stand::<P>(drawn(old(deck).cards@, c.index()), old(dealer).cards@.push(c), player.cards@, config.soft_17),
    decreases old(deck).total(), 0int,
{
    let ghost d0 = deck.cards@;
    let ghost h0 = dealer.cards@;
    let ghost before = *deck;
    deck.take(c);
    proof {
        lemma_take_total(before, *deck, c);
    }
    dealer.cards.push(c);
    let r = stand_chance(deck, dealer, player, config);
    dealer.cards.pop();
    assert(dealer.cards@ =~= h0);
    proof {
        lemma_take_total(before, *deck, c);
    }
    deck.put_back(c);
    assert(deck.cards@ =~= d0);
    r
}

/// The chances of the player's fixed hand once the dealer plays out: the
/// dealer draws while the score is at most the draw limit, then the hands compare.
pub fn stand_chance<P: Odds>(deck: &mut Deck, dealer: &mut Hand, player: &Hand, config: &Config) -> (r: P)
    requires
        search_state(*old(deck), old(dealer).cards@, player.cards@),
    ensures
        final(deck).cards@ == old(deck).cards@,
        final(dealer).cards@ == old(dealer).cards@,
        r == spec_stand::<P>(old(deck).cards@, old(dealer).cards@, player.cards@, config.soft_17),
    decreases old(deck).total(), 1int,
{
    if dealer_draws(dealer, config) {
        let ghost d0 = deck.cards@;
        let ghost h0 = dealer.cards@;
        let cards = Card::iterator();
        let mut results: Vec<WeightedResult<P>> = Vec::new();
        let mut k: usize = 0;
        while k < cards.len()
            invariant
                cards@ == crate::calc::all_cards(),
                0 <= k <= cards@.len(),
                deck.cards@ == d0,
                dealer.cards@ == h0,
                d0 == old(deck).cards@,
                h0 == old(dealer).cards@,
                search_state(*deck, dealer.cards@, player.cards@),
                weighted_view(results@) == stand_results::<P>(d0, h0, player.cards@, config.soft_17, k as nat),
                results@.len() <= k,
                forall|j: int| 0 <= j < results@.len() ==> 0 <= #[trigger] results@[j].weight <= 52,
            decreases cards@.len() - k,
        {
            let card = cards[k];
            assert(card == card_at(k as int) && card.index() == k);
            let o = deck.remaining(card);
            if o > 0 {
                proof {
                    lemma_count_within_total(*deck, card);
                }
                let r = dealer_branch(deck, dealer, player, config, card);
                results.push(WeightedResult::of(o, r));
            }
            k = k + 1;
            assert(weighted_view(results@) =~= stand_results::<P>(d0, h0, player.cards@, config.soft_17, k as nat));
        }
        proof {
            lemma_weight_total_bound(weighted_view(results@));
        }
        from_weighted_result(&results)
    } else {
        match stand_outcome(dealer, player) {
            Outcome::Win => P::win(),
            Outcome::Draw => P::draw(),
            Outcome::Loss => P::lose(),
        }
    }
}


/// Tries one card for the player: draws it, takes the outcome that the policy
/// chooses between standing and hitting again (a loss when busted), and puts
/// the card back.
fn player_branch<P: Odds>(deck: &mut Deck, dealer: &mut Hand, player: &mut Hand, config: &Config, c: Card) -> (r: P)
    requires
        search_state(*old(deck), old(dealer).cards@, old(player).cards@),
        old(deck).count(c) > 0,
    ensures
        final(deck).cards@ == old(deck).cards@,
        final(dealer).cards@ == old(dealer).cards@,
        final(player).cards@ == old(player).cards@,
        r == spec_choice::<P>(drawn(old(deck).cards@, c.index()), old(dealer).cards@, old(player).cards@.push(c), *config),
    decreases old(deck).total(), 0int,
{
    let ghost d0 = deck.cards@;
    let ghost p0 = player.cards@;
    let ghost before = *deck;
    deck.take(c);
    proof {
        lemma_take_total(before, *deck, c);
    }
    player.cards.push(c);
    let r = if player.is_busted() {
        P::lose()
    } else {
        let stand: P = stand_chance(deck, dealer, player, config);
        let hit: P = hit_chance(deck, dealer, player, config);
        if prefers_stand(config.decision, stand.wins_more(&hit), stand.loses_less(&hit)) {
            stand
        } else {
            hit
        }
    };
    player.cards.pop();
    assert(player.cards@ =~= p0);
    deck.put_back(c);
    assert(deck.cards@ =~= d0);
    r
}

/// The chances of the player drawing one more card now, then at each later
/// point standing or hitting as the configured policy chooses.
pub fn hit_chance<P: Odds>(deck: &mut Deck, dealer: &mut Hand, player: &mut Hand, config: &Config) -> (r: P)
    requires
        search_state(*old(deck), old(dealer).cards@, old(player).cards@),
    ensures
        final(deck).cards@ == old(deck).cards@,
        final(dealer).cards@ == old(dealer).cards@,
        final(player).cards@ == old(player).cards@,
        r == spec_hit::<P>(old(deck).cards@, old(dealer).cards@, old(player).cards@, *config),
    decreases old(deck).total(), 1int,
{
    let ghost d0 = deck.cards@;
    let ghost h0 = dealer.cards@;
    let ghost p0 = player.cards@;
    let cards = Card::iterator();
    let mut results: Vec<WeightedResult<P>> = Vec::new();
    let mut k: usize = 0;
    while k < cards.len()
        invariant
            cards@ == crate::calc::all_cards(),
            0 <= k <= cards@.len(),
            deck.cards@ == d0,
            dealer.cards@ == h0,
            player.cards@ == p0,
            d0 == old(deck).cards@,
            h0 == old(dealer).cards@,
            p0 == old(player).cards@,
            search_state(*deck, dealer.cards@, player.cards@),
            weighted_view(results@) == hit_results::<P>(d0, h0, p0, *config, k as nat),
            results@.len() <= k,
            forall|j: int| 0 <= j < results@.len() ==> 0 <= #[trigger] results@[j].weight <= 52,
        decreases cards@.len() - k,
    {
        let card = cards[k];
        assert(card == card_at(k as int) && card.index() == k);
        let o = deck.remaining(card);
        if o > 0 {
            proof {
                lemma_count_within_total(*deck, card);
            }
            let r = player_branch(deck, dealer, player, config, card);
            results.push(WeightedResult::of(o, r));
        }
        k = k + 1;
        assert(weighted_view(results@) =~= hit_results::<P>(d0, h0, p0, *config, k as nat));
    }
    proof {
        lemma_weight_total_bound(weighted_view(results@));
    }
    from_weighted_result(&results)
}

proof fn lemma_initial_state(deck: Deck, dealer: Seq<Card>, player: Seq<Card>)
    requires
        forall|c: Card| #[trigger] deck.count(c) == standard_count(c) - count_of(dealer, c) - count_of(player, c),
        hands_possible(dealer, player),
    ensures
        search_state(deck, dealer, player),
{
    lemma_total_count(dealer);
    lemma_total_count(player);
    assert(deck.count(Card::Ace) == deck.cards@[0]);
    assert(deck.count(Card::Two) == deck.cards@[1]);
    assert(deck.count(Card::Three) == deck.cards@[2]);
    assert(deck.count(Card::Four) == deck.cards@[3]);
    assert(deck.count(Card::Five) == deck.cards@[4]);
    assert(deck.count(Card::Six) == deck.cards@[5]);
    assert(deck.count(Card::Seven) == deck.cards@[6]);
    assert(deck.count(Card::Eight) == deck.cards@[7]);
    assert(deck.count(Card::Nine) == deck.cards@[8]);
    assert(deck.count(Card::Ten) == deck.cards@[9]);
    assert forall|i: int| 0 <= i < 10 implies #[trigger] deck.cards@[i] >= 0 by {
        let c = card_at(i);
        assert(c.index() == i);
        assert(count_of(dealer, c) + count_of(player, c) <= standard_count(c));
    }
}

/// The chances of hitting now and of standing now, both from the hands as they
/// are; fails, without searching, on hands that `validate` refuses.
pub fn calculate<P: Odds>(dealer: &Hand, player: &Hand, config: &Config) -> (r: Result<CalculationResult<P>, CalcError>)
    ensures
        match validation_error(dealer.cards@, player.cards@) {
            Some(e) => r is Err && r->Err_0 == e,
            None => r is Ok,
        },
        r is Ok ==> r->Ok_0.chance_when_hit == spec_hit::<P>(
            dealt_counts(dealer.cards@, player.cards@),
            dealer.cards@,
            player.cards@,
            *config,
        ),
        r is Ok ==> r->Ok_0.chance_when_stand == spec_stand::<P>(
            dealt_counts(dealer.cards@, player.cards@),
            dealer.cards@,
            player.cards@,
            config.soft_17,
        ),
{
    let mut deck = match validate(dealer, player) {
        Ok(d) => d,
        Err(e) => {
            return Err(e);
        },
    };
    let mut dealer = dealer.clone();
    let mut player = player.clone();
    proof {
        lemma_initial_state(deck, dealer.cards@, player.cards@);
        assert forall|i: int| 0 <= i < 10 implies #[trigger] deck.cards@[i] == dealt_counts(dealer.cards@, player.cards@)[i] by {
            assert(card_at(i).index() == i);
            assert(deck.count(card_at(i)) == deck.cards@[i]);
        }
        assert(deck.cards@ =~= dealt_counts(dealer.cards@, player.cards@));
    }
    let chance_when_hit = hit_chance(&mut deck, &mut dealer, &mut player, config);
    let chance_when_stand = stand_chance(&mut deck, &mut dealer, &player, config);
    Ok(CalculationResult { chance_when_hit, chance_when_stand })
}

} // verus!

verus! {

/// Whether `m` measures the total probability of a chance vector exactly:
/// one for each certain outcome, additive, and scaled and divided as numbers are.
pub open spec fn exact_mass<P: Odds>(m: spec_fn(P) -> int) -> bool {
    &&& m(P::spec_win()) == 1
    &&& m(P::spec_draw()) == 1
    &&& m(P::spec_lose()) == 1
    &&& m(P::spec_zero()) == 0
    &&& forall|a: P, b: P| #[trigger] m(a.spec_plus(&b)) == m(a) + m(b)
    &&& forall|a: P, w: i32| #[trigger] m(a.spec_scaled(w)) == w * m(a)
    &&& forall|a: P, w: i32| w > 0 && m(a) == w ==> #[trigger] m(a.spec_divided(w)) == 1
}

/// The positive counts among the first `k` positions.
pub open spec fn pos_prefix(counts: Seq<i32>, k: nat) -> int
    decreases k,
{
    if k == 0 {
        0
    } else {
        pos_prefix(counts, (k - 1) as nat) + pos(counts[k - 1])
    }
}

/// What a state reached from a valid deal satisfies.
pub open spec fn dealt_state(counts: Seq<i32>, dealer: Seq<Card>, player: Seq<Card>) -> bool {
    &&& counts == dealt_counts(dealer, player)
    &&& hands_possible(dealer, player)
}

} // verus!

verus! {

/// The point values of a sequence, counted rank by rank.
pub open spec fn value_by_rank(s: Seq<Card>) -> int {
    count_of(s, Card::Ace) + 2 * count_of(s, Card::Two) + 3 * count_of(s, Card::Three) + 4 * count_of(
        s,
        Card::Four,
    ) + 5 * count_of(s, Card::Five) + 6 * count_of(s, Card::Six) + 7 * count_of(s, Card::Seven) + 8
        * count_of(s, Card::Eight) + 9 * count_of(s, Card::Nine) + 10 * count_of(s, Card::Ten)
}

proof fn lemma_sum_by_rank(s: Seq<Card>)
    ensures
        sum_values(s) == value_by_rank(s),
    decreases s.len(),
{
    if s.len() > 0 {
        lemma_sum_by_rank(s.drop_last());
    }
}

proof fn lemma_count_of_push(s: Seq<Card>, c: Card, x: Card)
    ensures
        count_of(s.push(c), x) == count_of(s, x) + if x == c {
            1int
        } else {
            0int
        },
{
    assert(s.push(c).drop_last() =~= s);
}

proof fn lemma_dealt_entry(counts: Seq<i32>, d: Seq<Card>, p: Seq<Card>, j: int)
    requires
        dealt_state(counts, d, p),
        0 <= j < 10,
    ensures
        counts[j] == standard_count(card_at(j)) - count_of(d, card_at(j)) - count_of(p, card_at(j)),
        0 <= counts[j] <= 16,
        card_at(j).index() == j,
{
    let y = card_at(j);
    lemma_count_of_nonneg(d, y);
    lemma_count_of_nonneg(p, y);
    assert(count_of(d, y) + count_of(p, y) <= standard_count(y));
}

/// A draw from a state reached from a valid deal is again such a state, for
/// the dealer and for the player alike.
proof fn lemma_dealt_push(counts: Seq<i32>, d: Seq<Card>, p: Seq<Card>, i: int)
    requires
        dealt_state(counts, d, p),
        can_draw(counts, i),
    ensures
        dealt_state(drawn(counts, i), d.push(card_at(i)), p),
        dealt_state(drawn(counts, i), d, p.push(card_at(i))),
{
    let c = card_at(i);
    assert(c.index() == i);
    assert forall|x: Card| #[trigger] count_of(d.push(c), x) + count_of(p, x) <= standard_count(x) by {
        lemma_count_of_push(d, c, x);
        if x == c {
            lemma_dealt_entry(counts, d, p, i);
        }
    }
    assert forall|x: Card| #[trigger] count_of(d, x) + count_of(p.push(c), x) <= standard_count(x) by {
        lemma_count_of_push(p, c, x);
        if x == c {
            lemma_dealt_entry(counts, d, p, i);
        }
    }
    assert forall|j: int| 0 <= j < 10 implies #[trigger] drawn(counts, i)[j] == dealt_counts(d.push(c), p)[j] by {
        let y = card_at(j);
        assert(y.index() == j);
        lemma_count_of_push(d, c, y);
        lemma_count_of_nonneg(d, y);
        lemma_count_of_nonneg(p, y);
        assert(count_of(d, y) + count_of(p, y) <= standard_count(y));
    }
    assert(drawn(counts, i) =~= dealt_counts(d.push(c), p));
    assert forall|j: int| 0 <= j < 10 implies #[trigger] drawn(counts, i)[j] == dealt_counts(d, p.push(c))[j] by {
        let y = card_at(j);
        assert(y.index() == j);
        lemma_count_of_push(p, c, y);
        lemma_count_of_nonneg(d, y);
        lemma_count_of_nonneg(p, y);
        assert(count_of(d, y) + count_of(p, y) <= standard_count(y));
    }
    assert(drawn(counts, i) =~= dealt_counts(d, p.push(c)));
}

/// In a state reached from a valid deal the counts lie between 0 and 16, and a
/// deck that has run out leaves every card in the two hands.
proof fn lemma_dealt_counts(counts: Seq<i32>, d: Seq<Card>, p: Seq<Card>)
    requires
        dealt_state(counts, d, p),
    ensures
        forall|j: int| 0 <= j < 10 ==> 0 <= #[trigger] counts[j] <= 16,
        pos_total(counts) == pos_prefix(counts, 10),
        pos_total(counts) == 0 ==> sum_values(d) + sum_values(p) == 340,
{
    assert forall|j: int| 0 <= j < 10 implies 0 <= #[trigger] counts[j] <= 16 by {
        lemma_dealt_entry(counts, d, p, j);
    }
    reveal_with_fuel(pos_prefix, 11);
    if pos_total(counts) == 0 {
        lemma_sum_by_rank(d);
        lemma_sum_by_rank(p);
        lemma_dealt_entry(counts, d, p, 0);
        lemma_dealt_entry(counts, d, p, 1);
        lemma_dealt_entry(counts, d, p, 2);
        lemma_dealt_entry(counts, d, p, 3);
        lemma_dealt_entry(counts, d, p, 4);
        lemma_dealt_entry(counts, d, p, 5);
        lemma_dealt_entry(counts, d, p, 6);
        lemma_dealt_entry(counts, d, p, 7);
        lemma_dealt_entry(counts, d, p, 8);
        lemma_dealt_entry(counts, d, p, 9);
        assert(card_at(0) == Card::Ace && card_at(1) == Card::Two && card_at(2) == Card::Three);
        assert(card_at(3) == Card::Four && card_at(4) == Card::Five && card_at(5) == Card::Six);
        assert(card_at(6) == Card::Seven && card_at(7) == Card::Eight && card_at(8) == Card::Nine);
        assert(card_at(9) == Card::Ten);
    }
}

} // verus!

verus! {

proof fn lemma_stand_mass<P: Odds>(m: spec_fn(P) -> int, counts: Seq<i32>, d: Seq<Card>, p: Seq<Card>, soft_17: bool)
    requires
        exact_mass(m),
        dealt_state(counts, d, p),
        hand_score(p) <= 21,
    ensures
        m(spec_stand::<P>(counts, d, p, soft_17)) == 1,
    decreases pos_total(counts), 1nat, 0nat,
{
    if hand_score(d) <= dealer_limit(soft_17) {
        lemma_stand_results_mass(m, counts, d, p, soft_17, 10);
        lemma_dealt_counts(counts, d, p);
        let rs = stand_results::<P>(counts, d, p, soft_17, 10);
        let w = weight_total(rs);
        assert(w > 0);
        assert(m(weighted_sum::<P>(rs).spec_divided(w as i32)) == 1);
    } else {
        match spec_stand_outcome(d, p) {
            Outcome::Win => {},
            Outcome::Draw => {},
            Outcome::Loss => {},
        }
    }
}

#[verifier::rlimit(60)]
proof fn lemma_stand_results_mass<P: Odds>(
    m: spec_fn(P) -> int,
    counts: Seq<i32>,
    d: Seq<Card>,
    p: Seq<Card>,
    soft_17: bool,
    k: nat,
)
    requires
        exact_mass(m),
        dealt_state(counts, d, p),
        hand_score(p) <= 21,
        k <= 10,
    ensures
        m(weighted_sum::<P>(stand_results::<P>(counts, d, p, soft_17, k))) == weight_total(
            stand_results::<P>(counts, d, p, soft_17, k),
        ),
        weight_total(stand_results::<P>(counts, d, p, soft_17, k)) == pos_prefix(counts, k),
    decreases pos_total(counts), 0nat, k,
{
    if k > 0 {
        let i = k - 1;
        lemma_stand_results_mass(m, counts, d, p, soft_17, (k - 1) as nat);
        lemma_dealt_counts(counts, d, p);
        let prev = stand_results::<P>(counts, d, p, soft_17, (k - 1) as nat);
        let rs = stand_results::<P>(counts, d, p, soft_17, k);
        if can_draw(counts, i) {
            lemma_drawn_total(counts, i);
            lemma_dealt_push(counts, d, p, i);
            let x = spec_stand::<P>(drawn(counts, i), d.push(card_at(i)), p, soft_17);
            lemma_stand_mass(m, drawn(counts, i), d.push(card_at(i)), p, soft_17);
            assert(rs == prev.push((counts[i] as int, x)));
            assert(rs.drop_last() =~= prev);
            assert(rs.last() == (counts[i] as int, x));
            assert(weighted_sum::<P>(rs) == weighted_sum::<P>(prev).spec_plus(&x.spec_scaled(counts[i])));
            assert(weight_total(rs) == weight_total(prev) + counts[i]);
            assert(m(x.spec_scaled(counts[i])) == counts[i] * m(x));
            assert(m(weighted_sum::<P>(prev).spec_plus(&x.spec_scaled(counts[i]))) == m(weighted_sum::<P>(prev)) + m(x.spec_scaled(counts[i])));
        } else {
            assert(rs == prev);
        }
        assert(pos_prefix(counts, k) == pos_prefix(counts, (k - 1) as nat) + pos(counts[i]));
    }
}

proof fn lemma_hit_mass<P: Odds>(m: spec_fn(P) -> int, counts: Seq<i32>, d: Seq<Card>, p: Seq<Card>, config: Config)
    requires
        exact_mass(m),
        dealt_state(counts, d, p),
        hand_score(p) <= 21,
        sum_values(d) < 319,
    ensures
        m(spec_hit::<P>(counts, d, p, config)) == 1,
    decreases pos_total(counts), 1nat, 0nat,
{
    lemma_hit_results_mass(m, counts, d, p, config, 10);
    lemma_dealt_counts(counts, d, p);
    crate::calc::lemma_sum_bounds(p);
    let rs = hit_results::<P>(counts, d, p, config, 10);
    let w = weight_total(rs);
    assert(w > 0);
    assert(m(weighted_sum::<P>(rs).spec_divided(w as i32)) == 1);
}

proof fn lemma_choice_mass<P: Odds>(m: spec_fn(P) -> int, counts: Seq<i32>, d: Seq<Card>, p: Seq<Card>, config: Config)
    requires
        exact_mass(m),
        dealt_state(counts, d, p),
        sum_values(d) < 319,
    ensures
        m(spec_choice::<P>(counts, d, p, config)) == 1,
    decreases pos_total(counts), 2nat, 0nat,
{
    if hand_score(p) <= 21 {
        lemma_stand_mass(m, counts, d, p, config.soft_17);
        lemma_hit_mass(m, counts, d, p, config);
    }
}

#[verifier::rlimit(60)]
proof fn lemma_hit_results_mass<P: Odds>(
    m: spec_fn(P) -> int,
    counts: Seq<i32>,
    d: Seq<Card>,
    p: Seq<Card>,
    config: Config,
    k: nat,
)
    requires
        exact_mass(m),
        dealt_state(counts, d, p),
        sum_values(d) < 319,
        k <= 10,
    ensures
        m(weighted_sum::<P>(hit_results::<P>(counts, d, p, config, k))) == weight_total(
            hit_results::<P>(counts, d, p, config, k),
        ),
        weight_total(hit_results::<P>(counts, d, p, config, k)) == pos_prefix(counts, k),
    decreases pos_total(counts), 0nat, k,
{
    if k > 0 {
        let i = k - 1;
        lemma_hit_results_mass(m, counts, d, p, config, (k - 1) as nat);
        lemma_dealt_counts(counts, d, p);
        let prev = hit_results::<P>(counts, d, p, config, (k - 1) as nat);
        let rs = hit_results::<P>(counts, d, p, config, k);
        if can_draw(counts, i) {
            lemma_drawn_total(counts, i);
            lemma_dealt_push(counts, d, p, i);
            let x = spec_choice::<P>(drawn(counts, i), d, p.push(card_at(i)), config);
            lemma_choice_mass(m, drawn(counts, i), d, p.push(card_at(i)), config);
            assert(rs == prev.push((counts[i] as int, x)));
            assert(rs.drop_last() =~= prev);
            assert(rs.last() == (counts[i] as int, x));
            assert(weighted_sum::<P>(rs) == weighted_sum::<P>(prev).spec_plus(&x.spec_scaled(counts[i])));
            assert(weight_total(rs) == weight_total(prev) + counts[i]);
            assert(m(x.spec_scaled(counts[i])) == counts[i] * m(x));
            assert(m(weighted_sum::<P>(prev).spec_plus(&x.spec_scaled(counts[i]))) == m(weighted_sum::<P>(prev)) + m(x.spec_scaled(counts[i])));
        } else {
            assert(rs == prev);
        }
        assert(pos_prefix(counts, k) == pos_prefix(counts, (k - 1) as nat) + pos(counts[i]));
    }
}

/// Where the chance operations are exact, as measured by `m`, the hit chance
/// and the stand chance of every valid deal each add up to one. Dealer hands
/// worth 319 points or more are left out: with them the deck can run out
/// while the player still draws.
pub proof fn lemma_chances_sum_to_one<P: Odds>(m: spec_fn(P) -> int, dealer: Seq<Card>, player: Seq<Card>, config: Config)
    requires
        exact_mass(m),
        validation_error(dealer, player) is None,
        sum_values(dealer) < 319,
    ensures
        m(spec_hit::<P>(dealt_counts(dealer, player), dealer, player, config)) == 1,
        m(spec_stand::<P>(dealt_counts(dealer, player), dealer, player, config.soft_17)) == 1,
{
    lemma_hit_mass(m, dealt_counts(dealer, player), dealer, player, config);
    lemma_stand_mass(m, dealt_counts(dealer, player), dealer, player, config.soft_17);
}

} // verus!

verus! {

/// Whether `m` measures the draw chance of a chance vector exactly: one for the
/// certain draw, zero for the certain win and loss, and additive, scaled and
/// divided as numbers are.
pub open spec fn exact_draw_part<P: Odds>(m: spec_fn(P) -> int) -> bool {
    &&& m(P::spec_win()) == 0
    &&& m(P::spec_draw()) == 1
    &&& m(P::spec_lose()) == 0
    &&& m(P::spec_zero()) == 0
    &&& forall|a: P, b: P| #[trigger] m(a.spec_plus(&b)) == m(a) + m(b)
    &&& forall|a: P, w: i32| #[trigger] m(a.spec_scaled(w)) == w * m(a)
    &&& forall|a: P, w: i32| w > 0 && m(a) == 0 ==> #[trigger] m(a.spec_divided(w)) == 0
}

proof fn lemma_stand_no_draw<P: Odds>(m: spec_fn(P) -> int, counts: Seq<i32>, d: Seq<Card>, p: Seq<Card>, soft_17: bool)
    requires
        exact_draw_part(m),
        dealt_state(counts, d, p),
        hand_score(p) <= dealer_limit(soft_17),
    ensures
        m(spec_stand::<P>(counts, d, p, soft_17)) == 0,
    decreases pos_total(counts), 1nat, 0nat,
{
    if hand_score(d) <= dealer_limit(soft_17) {
        lemma_stand_results_no_draw(m, counts, d, p, soft_17, 10);
        lemma_dealt_counts(counts, d, p);
        let rs = stand_results::<P>(counts, d, p, soft_17, 10);
        let w = weight_total(rs);
        assert(w > 0);
        assert(m(weighted_sum::<P>(rs).spec_divided(w as i32)) == 0);
    } else {
        crate::calc::lemma_sum_bounds(p);
        assert(spec_stand_outcome(d, p) != Outcome::Draw);
    }
}

#[verifier::rlimit(60)]
proof fn lemma_stand_results_no_draw<P: Odds>(
    m: spec_fn(P) -> int,
    counts: Seq<i32>,
    d: Seq<Card>,
    p: Seq<Card>,
    soft_17: bool,
    k: nat,
)
    requires
        exact_draw_part(m),
        dealt_state(counts, d, p),
        hand_score(p) <= dealer_limit(soft_17),
        k <= 10,
    ensures
        m(weighted_sum::<P>(stand_results::<P>(counts, d, p, soft_17, k))) == 0,
        weight_total(stand_results::<P>(counts, d, p, soft_17, k)) == pos_prefix(counts, k),
    decreases pos_total(counts), 0nat, k,
{
    if k > 0 {
        let i = k - 1;
        lemma_stand_results_no_draw(m, counts, d, p, soft_17, (k - 1) as nat);
        lemma_dealt_counts(counts, d, p);
        let prev = stand_results::<P>(counts, d, p, soft_17, (k - 1) as nat);
        let rs = stand_results::<P>(counts, d, p, soft_17, k);
        if can_draw(counts, i) {
            lemma_drawn_total(counts, i);
            lemma_dealt_push(counts, d, p, i);
            let x = spec_stand::<P>(drawn(counts, i), d.push(card_at(i)), p, soft_17);
            lemma_stand_no_draw(m, drawn(counts, i), d.push(card_at(i)), p, soft_17);
            assert(rs == prev.push((counts[i] as int, x)));
            assert(rs.drop_last() =~= prev);
            assert(rs.last() == (counts[i] as int, x));
            assert(weighted_sum::<P>(rs) == weighted_sum::<P>(prev).spec_plus(&x.spec_scaled(counts[i])));
            assert(weight_total(rs) == weight_total(prev) + counts[i]);
            assert(m(x.spec_scaled(counts[i])) == counts[i] * m(x));
            assert(m(weighted_sum::<P>(prev).spec_plus(&x.spec_scaled(counts[i]))) == m(weighted_sum::<P>(prev)) + m(x.spec_scaled(counts[i])));
        } else {
            assert(rs == prev);
        }
        assert(pos_prefix(counts, k) == pos_prefix(counts, (k - 1) as nat) + pos(counts[i]));
    }
}

/// Where the chance operations are exact, as measured by `m` on the draw
/// part, a player who stands on a score no higher than the dealer's draw limit
/// never draws: the dealer ends above that score or busts.
pub proof fn lemma_standing_low_never_draws<P: Odds>(m: spec_fn(P) -> int, dealer: Seq<Card>, player: Seq<Card>, config: Config)
    requires
        exact_draw_part(m),
        validation_error(dealer, player) is None,
        hand_score(player) <= config.spec_draw_limit(),
    ensures
        m(spec_stand::<P>(dealt_counts(dealer, player), dealer, player, config.soft_17)) == 0,
{
    lemma_stand_no_draw(m, dealt_counts(dealer, player), dealer, player, config.soft_17);
}

} // verus!
