//! The playout engine: actions, house rules, and the play of one hand against
//! the dealer.
//!
//! Payoffs are whole numbers of half bets. What a playout returns is stated as
//! a function of the cards that the deck dealt during it.

use crate::deck::{
    ace_count, card_sum, hand_is_soft, hand_total, hand_value, in_state_space, is_blackjack,
    is_bust, is_card, is_natural, lemma_card_sum_bounds, lemma_card_sum_pair, lemma_card_sum_push,
    Hand, InfiniteDeck, PlayerState, ACE, MAX_HAND_SIZE,
};
pub use crate::stats::ActionStats;
use crate::stats::{Tally, PAYOFF_LIMIT};
use vstd::prelude::*;

verus! {

/// Payoff of a won bet, in half bets.
pub const WIN: i32 = 2;

/// Payoff of a lost bet.
pub const LOSS: i32 = -2;

/// Payoff of a tie.
pub const PUSH: i32 = 0;

/// Payoff of a natural against a dealer without one: three to two.
pub const NATURAL_WIN: i32 = 3;

/// Payoff of a surrendered hand: half the bet is lost.
pub const SURRENDER_LOSS: i32 = -1;

/// What the player can do first.
#[derive(Debug, Clone, Copy, PartialEq, Eq, Hash, Structural)]
pub enum Action {
    Hit,
    Stand,
    Double,
    Split,
    Surrender,
}

/// The actions open to a hand, in the order they are tried: the four that
/// every hand has, and the split for a pair.
pub open spec fn legal_actions(is_pair: bool) -> Seq<Action> {
    if is_pair {
        seq![Action::Hit, Action::Stand, Action::Double, Action::Surrender, Action::Split]
    } else {
        seq![Action::Hit, Action::Stand, Action::Double, Action::Surrender]
    }
}

/// The letter that a strategy table shows for an action.
pub open spec fn action_letter(action: Action) -> Seq<char> {
    match action {
        Action::Hit => "H"@,
        Action::Stand => "S"@,
        Action::Double => "D"@,
        Action::Split => "P"@,
        Action::Surrender => "R"@,
    }
}

impl Action {
    /// The action's letter: H, S, D, P for a split, R for a surrender.
    pub fn symbol(&self) -> (s: &'static str)
        ensures
            s@ == action_letter(*self),
    {
        match self {
            Action::Hit => "H",
            Action::Stand => "S",
            Action::Double => "D",
            Action::Split => "P",
            Action::Surrender => "R",
        }
    }

    /// The actions open to a hand that is, or is not, a pair.
    pub fn valid_actions(is_pair: bool) -> (actions: Vec<Action>)
        ensures
            actions@ == legal_actions(is_pair),
    {
        let mut actions: Vec<Action> = Vec::new();
        actions.push(Action::Hit);
        actions.push(Action::Stand);
        actions.push(Action::Double);
        actions.push(Action::Surrender);
        if is_pair {
            actions.push(Action::Split);
        }
        assert(actions@ =~= legal_actions(is_pair));
        actions
    }
}

/// Who is drawing: the dealer, or the player facing the dealer's up-card.
#[derive(Debug, Clone, Copy, PartialEq, Eq, Structural)]
pub enum Seat {
    Dealer,
    Player { dealer_upcard: u8 },
}

/// The dealer stands on every 17, soft or hard.
pub open spec fn dealer_stands_on(total: nat) -> bool {
    total >= 17
}

/// After the first action the player stands on hard 17 or more, on soft 18
/// or more, and on hard 12 to 16 against an up-card of 2 to 6.
pub open spec fn player_stands_on(total: nat, is_soft: bool, dealer_upcard: u8) -> bool {
    if is_soft {
        total >= 18
    } else {
        total >= 17 || (total >= 12 && 2 <= dealer_upcard <= 6)
    }
}

/// A hand made by a split is doubled on hard 9, 10 or 11 and on soft 16, 17
/// or 18.
pub open spec fn doubles_after_split_on(total: nat, is_soft: bool) -> bool {
    if is_soft {
        16 <= total <= 18
    } else {
        9 <= total <= 11
    }
}

/// Payoff of a standing player against a dealer who has finished drawing: a
/// dealer over 21 loses, else the higher total wins and equal totals tie.
pub open spec fn settled(player_total: nat, dealer_total: nat) -> int {
    if dealer_total > 21 {
        WIN as int
    } else if player_total > dealer_total {
        WIN as int
    } else if player_total < dealer_total {
        LOSS as int
    } else {
        PUSH as int
    }
}

/// Whether the dealer stands on `total`.
pub fn dealer_stands(total: u16) -> (stand: bool)
    ensures
        stand == dealer_stands_on(total as nat),
{
    total >= 17
}

/// Whether the player, having hit, stands on this value against this up-card.
pub fn player_stands(total: u16, is_soft: bool, dealer_upcard: u8) -> (stand: bool)
    ensures
        stand == player_stands_on(total as nat, is_soft, dealer_upcard),
{
    if is_soft {
        total >= 18
    } else {
        total >= 17 || (total >= 12 && 2 <= dealer_upcard && dealer_upcard <= 6)
    }
}

/// Whether a hand made by a split is doubled on this value.
pub fn doubles_after_split(total: u16, is_soft: bool) -> (double: bool)
    ensures
        double == doubles_after_split_on(total as nat, is_soft),
{
    if is_soft {
        16 <= total && total <= 18
    } else {
        9 <= total && total <= 11
    }
}

/// Payoff of `player_total` against the dealer's final total.
pub fn settle(player_total: u16, dealer_total: u16) -> (payoff: i32)
    ensures
        payoff == settled(player_total as nat, dealer_total as nat),
{
    if dealer_total > 21 {
        WIN
    } else if player_total > dealer_total {
        WIN
    } else if player_total < dealer_total {
        LOSS
    } else {
        PUSH
    }
}

/// Whether the seat draws no further card to this hand: the hand is full, the
/// dealer has 17 or more, or the player is over 21 or stands.
pub open spec fn stops(seat: Seat, hand: Seq<u8>) -> bool {
    hand.len() >= MAX_HAND_SIZE || match seat {
        Seat::Dealer => dealer_stands_on(hand_total(hand)),
        Seat::Player { dealer_upcard } => hand_total(hand) > 21 || player_stands_on(
            hand_total(hand),
            hand_is_soft(hand),
            dealer_upcard,
        ),
    }
}

/// The hand once the seat has drawn until it stops, taking its cards from
/// `cards` at position `from` onwards.
pub open spec fn hand_after(seat: Seat, hand: Seq<u8>, cards: Seq<u8>, from: int) -> Seq<u8>
    decreases MAX_HAND_SIZE - hand.len(),
{
    if stops(seat, hand) {
        hand
    } else {
        hand_after(seat, hand.push(cards[from]), cards, from + 1)
    }
}

/// Whether `longer` begins with all of `shorter`.
pub open spec fn extends(longer: Seq<u8>, shorter: Seq<u8>) -> bool {
    &&& shorter.len() <= longer.len()
    &&& forall|i: int| 0 <= i < shorter.len() ==> longer[i] == shorter[i]
}

/// Whether `later` is `earlier` followed by cards that the deck deals.
pub open spec fn deals_on(later: Seq<u8>, earlier: Seq<u8>) -> bool {
    &&& extends(later, earlier)
    &&& forall|i: int| earlier.len() <= i < later.len() ==> is_card(#[trigger] later[i])
}

/// What a stretch of play comes to: its payoff in half bets, and the position
/// in the cards of the first card it did not take.
pub struct Outcome {
    pub payoff: int,
    pub next: int,
}

/// A finished player hand of `player_total` against the dealer, who shows
/// `dealer_upcard` and whose second card is `dealer_hole`. A dealer natural
/// wins at once; else the dealer draws from `cards` at `from` and the totals
/// are compared.
pub open spec fn resolved(
    player_total: nat,
    dealer_upcard: u8,
    dealer_hole: u8,
    cards: Seq<u8>,
    from: int,
) -> Outcome {
    let dealer = seq![dealer_upcard, dealer_hole];
    if is_natural(dealer) {
        Outcome { payoff: LOSS as int, next: from }
    } else {
        let last = hand_after(Seat::Dealer, dealer, cards, from);
        Outcome { payoff: settled(player_total, hand_total(last)), next: from + last.len() - 2 }
    }
}

/// The player's hand after a hit and whatever the standing rule adds to it.
pub open spec fn hit_hand(hand: Seq<u8>, dealer_upcard: u8, cards: Seq<u8>, from: int) -> Seq<
    u8,
> {
    hand_after(Seat::Player { dealer_upcard }, hand.push(cards[from]), cards, from + 1)
}

/// A hit: the bet is lost where the hand goes over 21, else the hand meets
/// the dealer.
pub open spec fn hit_outcome(
    hand: Seq<u8>,
    dealer_upcard: u8,
    dealer_hole: u8,
    cards: Seq<u8>,
    from: int,
) -> Outcome {
    let last = hit_hand(hand, dealer_upcard, cards, from);
    let next = from + last.len() - hand.len();
    if hand_total(last) > 21 {
        Outcome { payoff: LOSS as int, next }
    } else {
        resolved(hand_total(last), dealer_upcard, dealer_hole, cards, next)
    }
}

/// A double: one card, and twice the payoff of the hand it makes.
pub open spec fn double_outcome(
    hand: Seq<u8>,
    dealer_upcard: u8,
    dealer_hole: u8,
    cards: Seq<u8>,
    from: int,
) -> Outcome {
    let last = hand.push(cards[from]);
    if hand_total(last) > 21 {
        Outcome { payoff: 2 * LOSS, next: from + 1 }
    } else {
        let met = resolved(hand_total(last), dealer_upcard, dealer_hole, cards, from + 1);
        Outcome { payoff: 2 * met.payoff, next: met.next }
    }
}

/// Whether a hand made by a split is doubled: it is when it holds two cards
/// and its value calls for it.
pub open spec fn split_play_doubles(hand: Seq<u8>) -> bool {
    hand.len() == 2 && doubles_after_split_on(hand_total(hand), hand_is_soft(hand))
}

/// The cards that a hand made by a split ends with: one more where it is
/// doubled, else what the standing rule adds.
pub open spec fn split_play_cards(hand: Seq<u8>, dealer_upcard: u8, cards: Seq<u8>, from: int) -> Seq<
    u8,
> {
    if split_play_doubles(hand) {
        hand.push(cards[from])
    } else {
        hand_after(Seat::Player { dealer_upcard }, hand, cards, from)
    }
}

/// The play of a hand made by a split: lost where it goes over 21, else it
/// meets a dealer hand of its own; twice that where the hand was doubled.
pub open spec fn split_play_outcome(
    hand: Seq<u8>,
    dealer_upcard: u8,
    dealer_hole: u8,
    cards: Seq<u8>,
    from: int,
) -> Outcome {
    let last = split_play_cards(hand, dealer_upcard, cards, from);
    let stake: int = if split_play_doubles(hand) {
        2
    } else {
        1
    };
    let next = from + last.len() - hand.len();
    if hand_total(last) > 21 {
        Outcome { payoff: stake * LOSS, next }
    } else {
        let met = resolved(hand_total(last), dealer_upcard, dealer_hole, cards, next);
        Outcome { payoff: stake * met.payoff, next: met.next }
    }
}

/// The cards that one hand of a split ends with. It starts as the pair's card
/// and the card at `from`; split aces stay at that.
pub open spec fn split_hand_cards(card: u8, dealer_upcard: u8, cards: Seq<u8>, from: int) -> Seq<
    u8,
> {
    let hand = seq![card, cards[from]];
    if card == ACE {
        hand
    } else {
        split_play_cards(hand, dealer_upcard, cards, from + 1)
    }
}

/// One hand of a split. Split aces meet the dealer with the one card they
/// were given; any other hand is played on.
pub open spec fn split_hand_outcome(
    card: u8,
    dealer_upcard: u8,
    dealer_hole: u8,
    cards: Seq<u8>,
    from: int,
) -> Outcome {
    if card == ACE {
        let last = split_hand_cards(card, dealer_upcard, cards, from);
        resolved(hand_total(last), dealer_upcard, dealer_hole, cards, from + 1)
    } else {
        split_play_outcome(seq![card, cards[from]], dealer_upcard, dealer_hole, cards, from + 1)
    }
}

/// A split: the two hands are played one after the other and their payoffs
/// added.
pub open spec fn split_outcome(
    card: u8,
    dealer_upcard: u8,
    dealer_hole: u8,
    cards: Seq<u8>,
    from: int,
) -> Outcome {
    let one = split_hand_outcome(card, dealer_upcard, dealer_hole, cards, from);
    let two = split_hand_outcome(card, dealer_upcard, dealer_hole, cards, one.next);
    Outcome { payoff: one.payoff + two.payoff, next: two.next }
}

/// Whether the hand is two equal cards.
pub open spec fn is_pair_hand(hand: Seq<u8>) -> bool {
    hand.len() == 2 && hand[0] == hand[1]
}

/// Whether a playout of `action` from `hand` can be made: a hit or a double
/// needs room for a card, a split needs a pair. A natural is paid whatever the
/// action.
pub open spec fn playable(hand: Seq<u8>, action: Action) -> bool {
    is_natural(hand) || match action {
        Action::Hit | Action::Double => hand.len() < MAX_HAND_SIZE,
        Action::Split => is_pair_hand(hand),
        _ => true,
    }
}

/// One playout. The dealer's second card is the card at `from`. A natural is
/// paid three to two, or ties a dealer natural, whatever the action. A
/// surrender loses half the bet, or all of it to a dealer natural.
pub open spec fn play_outcome(
    hand: Seq<u8>,
    dealer_upcard: u8,
    action: Action,
    cards: Seq<u8>,
    from: int,
) -> Outcome {
    let dealer_hole = cards[from];
    let dealer_natural = is_natural(seq![dealer_upcard, dealer_hole]);
    let at = from + 1;
    if is_natural(hand) {
        Outcome {
            payoff: if dealer_natural {
                PUSH as int
            } else {
                NATURAL_WIN as int
            },
            next: at,
        }
    } else {
        match action {
            Action::Hit => hit_outcome(hand, dealer_upcard, dealer_hole, cards, at),
            Action::Stand => resolved(hand_total(hand), dealer_upcard, dealer_hole, cards, at),
            Action::Double => double_outcome(hand, dealer_upcard, dealer_hole, cards, at),
            Action::Split => split_outcome(hand[0], dealer_upcard, dealer_hole, cards, at),
            Action::Surrender => Outcome {
                payoff: if dealer_natural {
                    LOSS as int
                } else {
                    SURRENDER_LOSS as int
                },
                next: at,
            },
        }
    }
}

/// What a batch of playouts comes to: the tally of their payoffs, and the
/// position of the first card that none of them took.
pub struct BatchOutcome {
    pub tally: Tally,
    pub next: int,
}

/// `trials` playouts one after the other, each starting at the card where the
/// one before it ended.
pub open spec fn batch_outcome(
    hand: Seq<u8>,
    dealer_upcard: u8,
    action: Action,
    cards: Seq<u8>,
    from: int,
    trials: nat,
) -> BatchOutcome
    decreases trials,
{
    if trials == 0 {
        BatchOutcome { tally: Tally::empty(), next: from }
    } else {
        let before = batch_outcome(hand, dealer_upcard, action, cards, from, (trials - 1) as nat);
        let last = play_outcome(hand, dealer_upcard, action, cards, before.next);
        BatchOutcome { tally: before.tally.record(last.payoff), next: last.next }
    }
}

/// A natural is paid whatever the action: three to two, or nothing where the
/// dealer's two cards are a natural as well. The dealer's second card is the
/// only card taken.
pub proof fn lemma_natural_is_paid_whatever_the_action(
    hand: Seq<u8>,
    dealer_upcard: u8,
    action: Action,
    cards: Seq<u8>,
    from: int,
)
    requires
        is_natural(hand),
    ensures
        play_outcome(hand, dealer_upcard, action, cards, from) == (Outcome {
            payoff: if is_natural(seq![dealer_upcard, cards[from]]) {
                PUSH as int
            } else {
                NATURAL_WIN as int
            },
            next: from + 1,
        }),
{
}

/// A surrender of a hand that is no natural loses half the bet, and the whole
/// bet where the dealer's two cards are a natural. The dealer's second card is
/// the only card taken.
pub proof fn lemma_surrender_payoff(hand: Seq<u8>, dealer_upcard: u8, cards: Seq<u8>, from: int)
    requires
        !is_natural(hand),
    ensures
        play_outcome(hand, dealer_upcard, Action::Surrender, cards, from) == (Outcome {
            payoff: if is_natural(seq![dealer_upcard, cards[from]]) {
                LOSS as int
            } else {
                SURRENDER_LOSS as int
            },
            next: from + 1,
        }),
{
}

/// Split aces make two hands of two cards each, the ace and the one card
/// dealt to it, and each meets the dealer as it is, whatever it totals.
pub proof fn lemma_split_aces_take_one_card_each(
    dealer_upcard: u8,
    dealer_hole: u8,
    cards: Seq<u8>,
    from: int,
)
    ensures
        ({
            let one = resolved(
                hand_total(seq![ACE, cards[from]]),
                dealer_upcard,
                dealer_hole,
                cards,
                from + 1,
            );
            let two = resolved(
                hand_total(seq![ACE, cards[one.next]]),
                dealer_upcard,
                dealer_hole,
                cards,
                one.next + 1,
            );
            &&& split_hand_cards(ACE, dealer_upcard, cards, from) == seq![ACE, cards[from]]
            &&& split_hand_cards(ACE, dealer_upcard, cards, one.next) == seq![
                ACE,
                cards[one.next],
            ]
            &&& split_outcome(ACE, dealer_upcard, dealer_hole, cards, from) == (Outcome {
                payoff: one.payoff + two.payoff,
                next: two.next,
            })
        }),
{
}

/// No playout pays more than the limit in either direction.
pub proof fn lemma_payoff_within_limit(
    hand: Seq<u8>,
    dealer_upcard: u8,
    action: Action,
    cards: Seq<u8>,
    from: int,
)
    ensures
        -PAYOFF_LIMIT <= play_outcome(hand, dealer_upcard, action, cards, from).payoff
            <= PAYOFF_LIMIT,
{
}

/// What keeps a hand of dealt cards short while every ace in it counts one:
/// with `hard` the sum of the cards at that count, a hand without an ace
/// holds at most `hard / 2` cards, a hand with an ace at most `hard`, and a
/// hand with an ace that has passed 11 at most `hard - 5`, since only a card
/// of six or more takes it from 6 or less past 11.
pub open spec fn short_for_its_sum(hand: Seq<u8>) -> bool {
    let aces = ace_count(hand);
    let hard = card_sum(hand) - 10 * aces;
    if aces == 0 {
        2 * hand.len() <= hard
    } else if hard <= 11 {
        hand.len() <= hard
    } else {
        hand.len() <= hard - 5
    }
}

/// A dealer who starts from two dealt cards and draws dealt cards always
/// ends on 17 or more: the hand never fills up before the dealer stands. The
/// cards that the dealer takes are those of `cards` from `from` onwards, which
/// must reach as far as the dealer draws.
pub proof fn lemma_dealer_reaches_seventeen(
    dealer_upcard: u8,
    dealer_hole: u8,
    cards: Seq<u8>,
    from: int,
)
    requires
        is_card(dealer_upcard),
        is_card(dealer_hole),
        0 <= from,
        forall|i: int| from <= i < cards.len() ==> is_card(#[trigger] cards[i]),
        from + hand_after(Seat::Dealer, seq![dealer_upcard, dealer_hole], cards, from).len() - 2
            <= cards.len(),
    ensures
        hand_total(hand_after(Seat::Dealer, seq![dealer_upcard, dealer_hole], cards, from))
            >= 17,
{
    lemma_card_sum_pair(dealer_upcard, dealer_hole);
    lemma_dealer_draws_to_seventeen(seq![dealer_upcard, dealer_hole], cards, from);
}

/// A dealer hand that is short for its sum ends on 17 or more when dealt
/// cards are drawn to it.
proof fn lemma_dealer_draws_to_seventeen(hand: Seq<u8>, cards: Seq<u8>, from: int)
    requires
        short_for_its_sum(hand),
        0 <= from,
        forall|i: int| from <= i < cards.len() ==> is_card(#[trigger] cards[i]),
        from + hand_after(Seat::Dealer, hand, cards, from).len() - hand.len() <= cards.len(),
    ensures
        hand_total(hand_after(Seat::Dealer, hand, cards, from)) >= 17,
    decreases MAX_HAND_SIZE - hand.len(),
{
    lemma_card_sum_bounds(hand);
    if !stops(Seat::Dealer, hand) {
        let card = cards[from];
        lemma_hand_after_grows(Seat::Dealer, hand.push(card), cards, from + 1);
        assert(is_card(card));
        lemma_card_sum_push(hand, card);
        lemma_dealer_draws_to_seventeen(hand.push(card), cards, from + 1);
    }
}

/// Drawing never takes a card away.
pub proof fn lemma_hand_after_grows(seat: Seat, hand: Seq<u8>, cards: Seq<u8>, from: int)
    ensures
        hand_after(seat, hand, cards, from).len() >= hand.len(),
    decreases MAX_HAND_SIZE - hand.len(),
{
    if !stops(seat, hand) {
        lemma_hand_after_grows(seat, hand.push(cards[from]), cards, from + 1);
    }
}

/// Why a playout cannot be made.
#[derive(Debug, Clone, Copy, PartialEq, Eq, Structural)]
pub enum PlayError {
    /// A split was asked of a hand that is not two equal cards.
    SplitWithoutPair,
    /// A hit or a double was asked of a hand with no room for a card.
    HandFull,
}

/// The error that a playout of `action` from `hand` gives where it cannot be
/// made.
pub open spec fn play_error(hand: Seq<u8>, action: Action) -> PlayError {
    if action == Action::Split {
        PlayError::SplitWithoutPair
    } else {
        PlayError::HandFull
    }
}

/// `extends` carries over a sequence in between.
pub proof fn lemma_extends_transitive(a: Seq<u8>, b: Seq<u8>, c: Seq<u8>)
    requires
        extends(a, b),
        extends(b, c),
    ensures
        extends(a, c),
{
}

/// Whether the seat draws no further card to the hand.
pub fn seat_stops(seat: Seat, hand: &Hand) -> (stop: bool)
    ensures
        stop == stops(seat, hand@),
{
    if hand.len() >= MAX_HAND_SIZE {
        return true;
    }
    let (total, is_soft) = hand_value(hand);
    match seat {
        Seat::Dealer => dealer_stands(total),
        Seat::Player { dealer_upcard } => total > 21 || player_stands(
            total,
            is_soft,
            dealer_upcard,
        ),
    }
}

/// Plays hands against the dealer with cards from a deck of its own.
pub struct BlackjackEngine {
    deck: InfiniteDeck,
}

impl BlackjackEngine {
    /// All cards that the engine's deck has dealt so far, oldest first.
    pub closed spec fn dealt(&self) -> Seq<u8> {
        self.deck.dealt()
    }

    /// An engine whose deck has dealt nothing yet.
    pub fn new() -> (engine: BlackjackEngine)
        ensures
            engine.dealt() == Seq::<u8>::empty(),
    {
        BlackjackEngine { deck: InfiniteDeck::new() }
    }

    /// Draws to `hand` until the seat stops.
    fn draw_out(&mut self, seat: Seat, hand: &mut Hand)
        ensures
            deals_on(final(self).dealt(), old(self).dealt()),
            final(self).dealt().len() - old(self).dealt().len() == final(hand)@.len() - old(
                hand,
            )@.len(),
            forall|cards: Seq<u8>|
                extends(cards, final(self).dealt()) ==> #[trigger] hand_after(
                    seat,
                    old(hand)@,
                    cards,
                    old(self).dealt().len() as int,
                ) == final(hand)@,
    {
        let ghost start = self.dealt();
        let ghost first = hand@;
        loop
            invariant
                deals_on(self.dealt(), start),
                self.dealt().len() - start.len() == hand@.len() - first.len(),
                forall|cards: Seq<u8>|
                    extends(cards, self.dealt()) ==> #[trigger] hand_after(
                        seat,
                        first,
                        cards,
                        start.len() as int,
                    ) == hand_after(seat, hand@, cards, self.dealt().len() as int),
            ensures
                stops(seat, hand@),
            decreases MAX_HAND_SIZE - hand@.len(),
        {
            if seat_stops(seat, hand) {
                break ;
            }
            let ghost before = self.dealt();
            let card: u8 = self.deck.draw();
            hand.push(card);
            proof {
                assert forall|cards: Seq<u8>| extends(cards, self.dealt()) implies #[trigger] hand_after(
                    seat,
                    first,
                    cards,
                    start.len() as int,
                ) == hand_after(seat, hand@, cards, self.dealt().len() as int) by {
                    assert(extends(cards, before));
                    assert(cards[before.len() as int] == card);
                }
            }
        }
    }

    /// Plays out the dealer's hand: the dealer draws below 17 and stands on
    /// every 17.
    fn dealer_play(&mut self, dealer: &mut Hand)
        ensures
            deals_on(final(self).dealt(), old(self).dealt()),
            final(self).dealt().len() - old(self).dealt().len() == final(dealer)@.len() - old(
                dealer,
            )@.len(),
            forall|cards: Seq<u8>|
                extends(cards, final(self).dealt()) ==> #[trigger] hand_after(
                    Seat::Dealer,
                    old(dealer)@,
                    cards,
                    old(self).dealt().len() as int,
                ) == final(dealer)@,
    {
        self.draw_out(Seat::Dealer, dealer);
    }

    /// Resolves a finished player hand against the dealer. A dealer natural
    /// takes the bet; else the dealer plays out and the totals are compared.
    fn resolve_vs_dealer(&mut self, player: &Hand, dealer_upcard: u8, dealer_hole: u8) -> (payoff:
        i32)
        ensures
            deals_on(final(self).dealt(), old(self).dealt()),
            LOSS <= payoff <= WIN,
            forall|cards: Seq<u8>|
                extends(cards, final(self).dealt()) ==> #[trigger] resolved(
                    hand_total(player@),
                    dealer_upcard,
                    dealer_hole,
                    cards,
                    old(self).dealt().len() as int,
                ) == (Outcome { payoff: payoff as int, next: final(self).dealt().len() as int }),
    {
        let player_total: u16 = hand_value(player).0;
        let mut dealer = Hand::from_cards(dealer_upcard, dealer_hole);
        if is_blackjack(&dealer) {
            return LOSS;
        }
        self.dealer_play(&mut dealer);
        let dealer_total: u16 = hand_value(&dealer).0;
        settle(player_total, dealer_total)
    }

    /// A stand: the hand meets the dealer as it is.
    fn play_hand_stand(&mut self, player: &Hand, dealer_upcard: u8, dealer_hole: u8) -> (payoff:
        i32)
        ensures
            deals_on(final(self).dealt(), old(self).dealt()),
            LOSS <= payoff <= WIN,
            forall|cards: Seq<u8>|
                extends(cards, final(self).dealt()) ==> #[trigger] resolved(
                    hand_total(player@),
                    dealer_upcard,
                    dealer_hole,
                    cards,
                    old(self).dealt().len() as int,
                ) == (Outcome { payoff: payoff as int, next: final(self).dealt().len() as int }),
    {
        self.resolve_vs_dealer(player, dealer_upcard, dealer_hole)
    }

    /// A hit: one card, then more by the standing rule.
    fn play_hand_hit(&mut self, player: &Hand, dealer_upcard: u8, dealer_hole: u8) -> (payoff:
        i32)
        requires
            player@.len() < MAX_HAND_SIZE,
        ensures
            deals_on(final(self).dealt(), old(self).dealt()),
            LOSS <= payoff <= WIN,
            forall|cards: Seq<u8>|
                extends(cards, final(self).dealt()) ==> #[trigger] hit_outcome(
                    player@,
                    dealer_upcard,
                    dealer_hole,
                    cards,
                    old(self).dealt().len() as int,
                ) == (Outcome { payoff: payoff as int, next: final(self).dealt().len() as int }),
    {
        let ghost start = self.dealt();
        let mut hand: Hand = *player;
        let card: u8 = self.deck.draw();
        hand.push(card);
        self.draw_out(Seat::Player { dealer_upcard }, &mut hand);
        let ghost drawn = self.dealt();
        if is_bust(&hand) {
            proof {
                assert forall|cards: Seq<u8>| extends(cards, self.dealt()) implies #[trigger] hit_outcome(
                    player@,
                    dealer_upcard,
                    dealer_hole,
                    cards,
                    start.len() as int,
                ) == (Outcome { payoff: LOSS as int, next: self.dealt().len() as int }) by {
                    assert(cards[start.len() as int] == card);
                    assert(hit_hand(player@, dealer_upcard, cards, start.len() as int) == hand@);
                }
            }
            return LOSS;
        }
        let payoff: i32 = self.resolve_vs_dealer(&hand, dealer_upcard, dealer_hole);
        proof {
            assert forall|cards: Seq<u8>| extends(cards, self.dealt()) implies #[trigger] hit_outcome(
                player@,
                dealer_upcard,
                dealer_hole,
                cards,
                start.len() as int,
            ) == (Outcome { payoff: payoff as int, next: self.dealt().len() as int }) by {
                lemma_extends_transitive(cards, self.dealt(), drawn);
                assert(cards[start.len() as int] == card);
                assert(hit_hand(player@, dealer_upcard, cards, start.len() as int) == hand@);
                assert(resolved(
                    hand_total(hand@),
                    dealer_upcard,
                    dealer_hole,
                    cards,
                    drawn.len() as int,
                ).payoff == payoff);
            }
        }
        payoff
    }

    /// A double: exactly one card, at twice the bet.
    fn play_hand_double(&mut self, player: &Hand, dealer_upcard: u8, dealer_hole: u8) -> (payoff:
        i32)
        requires
            player@.len() < MAX_HAND_SIZE,
        ensures
            deals_on(final(self).dealt(), old(self).dealt()),
            2 * LOSS <= payoff <= 2 * WIN,
            forall|cards: Seq<u8>|
                extends(cards, final(self).dealt()) ==> #[trigger] double_outcome(
                    player@,
                    dealer_upcard,
                    dealer_hole,
                    cards,
                    old(self).dealt().len() as int,
                ) == (Outcome { payoff: payoff as int, next: final(self).dealt().len() as int }),
    {
        let ghost start = self.dealt();
        let mut hand: Hand = *player;
        let card: u8 = self.deck.draw();
        hand.push(card);
        let ghost drawn = self.dealt();
        if is_bust(&hand) {
            return 2 * LOSS;
        }
        let met: i32 = self.resolve_vs_dealer(&hand, dealer_upcard, dealer_hole);
        proof {
            assert forall|cards: Seq<u8>| extends(cards, self.dealt()) implies #[trigger] double_outcome(
                player@,
                dealer_upcard,
                dealer_hole,
                cards,
                start.len() as int,
            ) == (Outcome { payoff: 2 * met, next: self.dealt().len() as int }) by {
                lemma_extends_transitive(cards, self.dealt(), drawn);
                assert(cards[start.len() as int] == card);
                assert(resolved(
                    hand_total(hand@),
                    dealer_upcard,
                    dealer_hole,
                    cards,
                    drawn.len() as int,
                ).payoff == met);
            }
        }
        2 * met
    }
    /// Plays a hand made by a split: doubles it where its two cards call for
    /// that, else draws by the standing rule, and lets it meet the dealer.
    fn play_split_hand(&mut self, hand: &mut Hand, dealer_upcard: u8, dealer_hole: u8) -> (payoff:
        i32)
        ensures
            deals_on(final(self).dealt(), old(self).dealt()),
            2 * LOSS <= payoff <= 2 * WIN,
            forall|cards: Seq<u8>|
                extends(cards, final(self).dealt()) ==> #[trigger] split_play_outcome(
                    old(hand)@,
                    dealer_upcard,
                    dealer_hole,
                    cards,
                    old(self).dealt().len() as int,
                ) == (Outcome { payoff: payoff as int, next: final(self).dealt().len() as int }),
    {
        let ghost start = self.dealt();
        let ghost first = hand@;
        let (total, is_soft) = hand_value(hand);
        if hand.len() == 2 && doubles_after_split(total, is_soft) {
            let card: u8 = self.deck.draw();
            hand.push(card);
            let ghost drawn = self.dealt();
            if is_bust(hand) {
                return 2 * LOSS;
            }
            let met: i32 = self.resolve_vs_dealer(hand, dealer_upcard, dealer_hole);
            proof {
                assert forall|cards: Seq<u8>| extends(cards, self.dealt()) implies #[trigger] split_play_outcome(
                    first,
                    dealer_upcard,
                    dealer_hole,
                    cards,
                    start.len() as int,
                ) == (Outcome { payoff: 2 * met, next: self.dealt().len() as int }) by {
                    lemma_extends_transitive(cards, self.dealt(), drawn);
                    assert(cards[start.len() as int] == card);
                    assert(resolved(
                        hand_total(hand@),
                        dealer_upcard,
                        dealer_hole,
                        cards,
                        drawn.len() as int,
                    ).payoff == met);
                }
            }
            return 2 * met;
        }
        self.draw_out(Seat::Player { dealer_upcard }, hand);
        let ghost drawn = self.dealt();
        if is_bust(hand) {
            proof {
                assert forall|cards: Seq<u8>| extends(cards, self.dealt()) implies #[trigger] split_play_outcome(
                    first,
                    dealer_upcard,
                    dealer_hole,
                    cards,
                    start.len() as int,
                ) == (Outcome { payoff: LOSS as int, next: self.dealt().len() as int }) by {
                    assert(split_play_cards(first, dealer_upcard, cards, start.len() as int)
                        == hand@);
                }
            }
            return LOSS;
        }
        let payoff: i32 = self.resolve_vs_dealer(hand, dealer_upcard, dealer_hole);
        proof {
            assert forall|cards: Seq<u8>| extends(cards, self.dealt()) implies #[trigger] split_play_outcome(
                first,
                dealer_upcard,
                dealer_hole,
                cards,
                start.len() as int,
            ) == (Outcome { payoff: payoff as int, next: self.dealt().len() as int }) by {
                lemma_extends_transitive(cards, self.dealt(), drawn);
                assert(split_play_cards(first, dealer_upcard, cards, start.len() as int)
                    == hand@);
                assert(resolved(
                    hand_total(hand@),
                    dealer_upcard,
                    dealer_hole,
                    cards,
                    drawn.len() as int,
                ).payoff == payoff);
            }
        }
        payoff
    }

    /// Deals a card to one card of a split pair and plays the hand. Split
    /// aces get that one card and no more.
    fn play_split_card(&mut self, split_card: u8, dealer_upcard: u8, dealer_hole: u8) -> (payoff:
        i32)
        ensures
            deals_on(final(self).dealt(), old(self).dealt()),
            2 * LOSS <= payoff <= 2 * WIN,
            forall|cards: Seq<u8>|
                extends(cards, final(self).dealt()) ==> #[trigger] split_hand_outcome(
                    split_card,
                    dealer_upcard,
                    dealer_hole,
                    cards,
                    old(self).dealt().len() as int,
                ) == (Outcome { payoff: payoff as int, next: final(self).dealt().len() as int }),
    {
        let ghost start = self.dealt();
        let card: u8 = self.deck.draw();
        let mut hand = Hand::from_cards(split_card, card);
        let ghost first = hand@;
        let ghost drawn = self.dealt();
        let payoff: i32 = if split_card == ACE {
            self.resolve_vs_dealer(&hand, dealer_upcard, dealer_hole)
        } else {
            self.play_split_hand(&mut hand, dealer_upcard, dealer_hole)
        };
        proof {
            assert forall|cards: Seq<u8>| extends(cards, self.dealt()) implies #[trigger] split_hand_outcome(
                split_card,
                dealer_upcard,
                dealer_hole,
                cards,
                start.len() as int,
            ) == (Outcome { payoff: payoff as int, next: self.dealt().len() as int }) by {
                lemma_extends_transitive(cards, self.dealt(), drawn);
                assert(cards[start.len() as int] == card);
                if split_card == ACE {
                    assert(resolved(
                        hand_total(first),
                        dealer_upcard,
                        dealer_hole,
                        cards,
                        drawn.len() as int,
                    ).payoff == payoff);
                } else {
                    assert(split_play_outcome(
                        first,
                        dealer_upcard,
                        dealer_hole,
                        cards,
                        drawn.len() as int,
                    ).payoff == payoff);
                }
            }
        }
        payoff
    }

    /// A split: each card of the pair becomes a hand, the two are played one
    /// after the other, and their payoffs are added.
    fn play_hand_split(&mut self, player: &Hand, dealer_upcard: u8, dealer_hole: u8) -> (payoff:
        i32)
        requires
            is_pair_hand(player@),
        ensures
            deals_on(final(self).dealt(), old(self).dealt()),
            4 * LOSS <= payoff <= 4 * WIN,
            forall|cards: Seq<u8>|
                extends(cards, final(self).dealt()) ==> #[trigger] split_outcome(
                    player@[0],
                    dealer_upcard,
                    dealer_hole,
                    cards,
                    old(self).dealt().len() as int,
                ) == (Outcome { payoff: payoff as int, next: final(self).dealt().len() as int }),
    {
        let ghost start = self.dealt();
        let split_card: u8 = player.first();
        let one: i32 = self.play_split_card(split_card, dealer_upcard, dealer_hole);
        let ghost middle = self.dealt();
        let two: i32 = self.play_split_card(split_card, dealer_upcard, dealer_hole);
        proof {
            assert forall|cards: Seq<u8>| extends(cards, self.dealt()) implies #[trigger] split_outcome(
                split_card,
                dealer_upcard,
                dealer_hole,
                cards,
                start.len() as int,
            ) == (Outcome { payoff: one + two, next: self.dealt().len() as int }) by {
                lemma_extends_transitive(cards, self.dealt(), middle);
                assert(split_hand_outcome(
                    split_card,
                    dealer_upcard,
                    dealer_hole,
                    cards,
                    start.len() as int,
                ).payoff == one);
                assert(split_hand_outcome(
                    split_card,
                    dealer_upcard,
                    dealer_hole,
                    cards,
                    middle.len() as int,
                ).payoff == two);
            }
        }
        one + two
    }

    /// Plays one hand from `player` against `dealer_upcard` with `action` as
    /// the first action, and returns the payoff in half bets.
    ///
    /// The payoff is that of `play_outcome` on the cards that the deck dealt
    /// during the call, whatever the deck deals afterwards. A playout that
    /// cannot be made deals no card.
    pub fn simulate_action(&mut self, player: &Hand, dealer_upcard: u8, action: Action) -> (result:
        Result<i32, PlayError>)
        ensures
            result is Ok <==> playable(player@, action),
            deals_on(final(self).dealt(), old(self).dealt()),
            match result {
                Ok(payoff) => {
                    &&& -PAYOFF_LIMIT <= payoff <= PAYOFF_LIMIT
                    &&& forall|cards: Seq<u8>|
                        extends(cards, final(self).dealt()) ==> #[trigger] play_outcome(
                            player@,
                            dealer_upcard,
                            action,
                            cards,
                            old(self).dealt().len() as int,
                        ) == (Outcome {
                            payoff: payoff as int,
                            next: final(self).dealt().len() as int,
                        })
                },
                Err(error) => {
                    &&& final(self).dealt() == old(self).dealt()
                    &&& error == play_error(player@, action)
                },
            },
    {
        let ghost start = self.dealt();
        let natural: bool = is_blackjack(player);
        if !natural {
            match action {
                Action::Hit | Action::Double => {
                    if player.len() >= MAX_HAND_SIZE {
                        return Err(PlayError::HandFull);
                    }
                },
                Action::Split => {
                    if player.len() != 2 || player.first() != player.second() {
                        return Err(PlayError::SplitWithoutPair);
                    }
                },
                _ => {},
            }
        }
        let dealer_hole: u8 = self.deck.draw();
        let ghost drawn = self.dealt();
        let dealer = Hand::from_cards(dealer_upcard, dealer_hole);
        if natural {
            let payoff: i32 = if is_blackjack(&dealer) {
                PUSH
            } else {
                NATURAL_WIN
            };
            proof {
                assert forall|cards: Seq<u8>| extends(cards, self.dealt()) implies #[trigger] play_outcome(
                    player@,
                    dealer_upcard,
                    action,
                    cards,
                    start.len() as int,
                ) == (Outcome { payoff: payoff as int, next: self.dealt().len() as int }) by {
                    assert(cards[start.len() as int] == dealer_hole);
                }
            }
            return Ok(payoff);
        }
        let payoff: i32 = match action {
            Action::Hit => self.play_hand_hit(player, dealer_upcard, dealer_hole),
            Action::Stand => self.play_hand_stand(player, dealer_upcard, dealer_hole),
            Action::Double => self.play_hand_double(player, dealer_upcard, dealer_hole),
            Action::Split => self.play_hand_split(player, dealer_upcard, dealer_hole),
            Action::Surrender => {
                if is_blackjack(&dealer) {
                    LOSS
                } else {
                    SURRENDER_LOSS
                }
            },
        };
        proof {
            assert forall|cards: Seq<u8>| extends(cards, self.dealt()) implies #[trigger] play_outcome(
                player@,
                dealer_upcard,
                action,
                cards,
                start.len() as int,
            ) == (Outcome { payoff: payoff as int, next: self.dealt().len() as int }) by {
                lemma_extends_transitive(cards, self.dealt(), drawn);
                assert(cards[start.len() as int] == dealer_hole);
                let at = drawn.len() as int;
                match action {
                    Action::Hit => {
                        assert(hit_outcome(player@, dealer_upcard, dealer_hole, cards, at).payoff
                            == payoff);
                    },
                    Action::Stand => {
                        assert(resolved(
                            hand_total(player@),
                            dealer_upcard,
                            dealer_hole,
                            cards,
                            at,
                        ).payoff == payoff);
                    },
                    Action::Double => {
                        assert(double_outcome(
                            player@,
                            dealer_upcard,
                            dealer_hole,
                            cards,
                            at,
                        ).payoff == payoff);
                    },
                    Action::Split => {
                        assert(split_outcome(
                            player@[0],
                            dealer_upcard,
                            dealer_hole,
                            cards,
                            at,
                        ).payoff == payoff);
                    },
                    Action::Surrender => {},
                }
            }
        }
        Ok(payoff)
    }

    /// Plays `batch_size` hands one after the other and returns the record of
    /// their payoffs. Where the playout cannot be made and a hand is asked
    /// for, the error comes back and no card is dealt.
    pub fn simulate_batch(
        &mut self,
        player: &Hand,
        dealer_upcard: u8,
        action: Action,
        batch_size: u32,
    ) -> (result: Result<ActionStats, PlayError>)
        ensures
            result is Ok <==> playable(player@, action) || batch_size == 0,
            deals_on(final(self).dealt(), old(self).dealt()),
            match result {
                Ok(stats) => {
                    &&& stats.wf()
                    &&& stats.n == batch_size
                    &&& forall|cards: Seq<u8>|
                        extends(cards, final(self).dealt()) ==> #[trigger] batch_outcome(
                            player@,
                            dealer_upcard,
                            action,
                            cards,
                            old(self).dealt().len() as int,
                            batch_size as nat,
                        ) == (BatchOutcome {
                            tally: stats@,
                            next: final(self).dealt().len() as int,
                        })
                },
                Err(error) => {
                    &&& final(self).dealt() == old(self).dealt()
                    &&& error == play_error(player@, action)
                },
            },
    {
        let ghost start = self.dealt();
        let mut stats = ActionStats::new();
        let mut done: u32 = 0;
        while done < batch_size
            invariant
                done <= batch_size,
                start == old(self).dealt(),
                deals_on(self.dealt(), start),
                stats.wf(),
                stats.n == done,
                done > 0 ==> playable(player@, action),
                done == 0 ==> self.dealt() == start,
                forall|cards: Seq<u8>|
                    extends(cards, self.dealt()) ==> #[trigger] batch_outcome(
                        player@,
                        dealer_upcard,
                        action,
                        cards,
                        start.len() as int,
                        done as nat,
                    ) == (BatchOutcome { tally: stats@, next: self.dealt().len() as int }),
            decreases batch_size - done,
        {
            let ghost before = self.dealt();
            let ghost tally = stats@;
            match self.simulate_action(player, dealer_upcard, action) {
                Ok(payoff) => {
                    stats.update(payoff);
                    done += 1;
                    proof {
                        assert forall|cards: Seq<u8>| extends(cards, self.dealt()) implies #[trigger] batch_outcome(
                            player@,
                            dealer_upcard,
                            action,
                            cards,
                            start.len() as int,
                            done as nat,
                        ) == (BatchOutcome { tally: stats@, next: self.dealt().len() as int }) by {
                            lemma_extends_transitive(cards, self.dealt(), before);
                            assert(batch_outcome(
                                player@,
                                dealer_upcard,
                                action,
                                cards,
                                start.len() as int,
                                (done - 1) as nat,
                            ).tally == tally);
                            assert(play_outcome(
                                player@,
                                dealer_upcard,
                                action,
                                cards,
                                before.len() as int,
                            ).payoff == payoff);
                        }
                        lemma_extends_transitive(self.dealt(), before, start);
                    }
                },
                Err(error) => {
                    return Err(error);
                },
            }
        }
        Ok(stats)
    }
}

impl Default for BlackjackEngine {
    fn default() -> (engine: BlackjackEngine)
        ensures
            engine.dealt() == Seq::<u8>::empty(),
    {
        BlackjackEngine::new()
    }
}

/// Number of decision states: 17 hard totals, 8 soft totals and 10 pairs,
/// each against 10 up-cards.
pub const STATE_COUNT: usize = 350;

/// The states of one hand against every up-card, from 2 to the ace.
pub open spec fn state_row(total: u8, is_soft: bool, is_pair: bool) -> Seq<PlayerState> {
    Seq::new(
        10,
        |d: int| PlayerState { total, dealer_upcard: (2 + d) as u8, is_soft, is_pair },
    )
}

/// The decision state at place `i`: first the hard totals 5 to 21, then the
/// soft totals 13 to 20, then the pairs from twos to aces, each against the
/// up-cards 2 to 11. A pair of aces is soft 12; any other pair is hard.
pub open spec fn state_at(i: int) -> PlayerState {
    let dealer_upcard = (2 + i % 10) as u8;
    if i < 170 {
        PlayerState { total: (5 + i / 10) as u8, dealer_upcard, is_soft: false, is_pair: false }
    } else if i < 250 {
        PlayerState {
            total: (13 + (i - 170) / 10) as u8,
            dealer_upcard,
            is_soft: true,
            is_pair: false,
        }
    } else if i < 340 {
        PlayerState {
            total: (2 * (2 + (i - 250) / 10)) as u8,
            dealer_upcard,
            is_soft: false,
            is_pair: true,
        }
    } else {
        PlayerState { total: 12, dealer_upcard, is_soft: true, is_pair: true }
    }
}

/// All decision states in order.
pub open spec fn all_states() -> Seq<PlayerState> {
    Seq::new(STATE_COUNT as nat, |i: int| state_at(i))
}

/// Every decision state lies in the state space and faces an up-card from 2
/// to 11, and no state is listed twice.
pub proof fn lemma_all_states_distinct_and_valid()
    ensures
        forall|i: int|
            0 <= i < STATE_COUNT ==> {
                &&& in_state_space(
                    (#[trigger] state_at(i)).total,
                    state_at(i).is_soft,
                    state_at(i).is_pair,
                )
                &&& 2 <= state_at(i).dealer_upcard <= 11
            },
        forall|i: int, j: int|
            0 <= i < j < STATE_COUNT ==> #[trigger] state_at(i) != #[trigger] state_at(j),
{
}

/// Appends the states of one hand against each up-card.
fn push_row(states: &mut Vec<PlayerState>, total: u8, is_soft: bool, is_pair: bool)
    ensures
        final(states)@ == old(states)@ + state_row(total, is_soft, is_pair),
{
    let ghost first = states@;
    let mut dealer: u8 = 2;
    while dealer <= 11
        invariant
            2 <= dealer <= 12,
            states@ == first + state_row(total, is_soft, is_pair).take(dealer - 2),
        decreases 12 - dealer,
    {
        states.push(PlayerState::new(total, dealer, is_soft, is_pair));
        assert(states@ =~= first + state_row(total, is_soft, is_pair).take(dealer - 1));
        dealer += 1;
    }
    assert(state_row(total, is_soft, is_pair).take(10) =~= state_row(total, is_soft, is_pair));
}

/// All decision states: hard 5 to 21, soft 13 to 20 and the pairs from twos
/// to aces, each against every up-card.
pub fn generate_all_states() -> (states: Vec<PlayerState>)
    ensures
        states@ == all_states(),
{
    let mut states: Vec<PlayerState> = Vec::new();
    let mut total: u8 = 5;
    while total <= 21
        invariant
            5 <= total <= 22,
            states@ =~= all_states().take((total - 5) * 10),
        decreases 22 - total,
    {
        push_row(&mut states, total, false, false);
        total += 1;
    }
    total = 13;
    while total <= 20
        invariant
            13 <= total <= 21,
            states@ =~= all_states().take(170 + (total - 13) * 10),
        decreases 21 - total,
    {
        push_row(&mut states, total, true, false);
        total += 1;
    }
    let mut card: u8 = 2;
    while card <= 11
        invariant
            2 <= card <= 12,
            states@ =~= all_states().take(250 + (card - 2) * 10),
        decreases 12 - card,
    {
        let pair_total: u8 = if card == 11 {
            12
        } else {
            card * 2
        };
        push_row(&mut states, pair_total, card == 11, true);
        card += 1;
    }
    assert(all_states().take(350) =~= all_states());
    states
}

} // verus!
