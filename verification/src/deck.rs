//! Cards, hands and their values, and the infinite deck that deals them.

use vstd::prelude::*;
use vstd::slice::slice_subrange;

verus! {

/// Most cards a hand can hold.
pub const MAX_HAND_SIZE: usize = 12;

/// Card value of an ace while it counts eleven.
pub const ACE: u8 = 11;

/// A hand of at most `MAX_HAND_SIZE` cards, kept in a fixed array.
///
/// Its view is the sequence of cards it holds, oldest first. Slots past the
/// last card stay zero.
#[derive(Clone, Copy)]
pub struct Hand {
    cards: [u8; 12],
    len: u8,
}

impl View for Hand {
    type V = Seq<u8>;

    closed spec fn view(&self) -> Seq<u8> {
        self.cards@.subrange(0, self.len as int)
    }
}

impl Hand {
    /// At most twelve cards are held, and the slots past them are zero.
    #[verifier::type_invariant]
    spec fn inv(self) -> bool {
        &&& self.len <= 12
        &&& forall|i: int| self.len <= i < 12 ==> self.cards@[i] == 0
    }

    /// An empty hand.
    pub fn new() -> (h: Hand)
        ensures
            h@ == Seq::<u8>::empty(),
    {
        let h = Hand { cards: [0; 12], len: 0 };
        assert(h@ =~= Seq::<u8>::empty());
        h
    }

    /// The two-card hand `c1`, `c2`.
    pub fn from_cards(c1: u8, c2: u8) -> (h: Hand)
        ensures
            h@ == seq![c1, c2],
    {
        let mut cards: [u8; 12] = [0; 12];
        cards[0] = c1;
        cards[1] = c2;
        let h = Hand { cards, len: 2 };
        assert(h@ =~= seq![c1, c2]);
        h
    }

    /// Appends `card` to a hand that is not full.
    pub fn push(&mut self, card: u8)
        requires
            old(self)@.len() < MAX_HAND_SIZE,
        ensures
            final(self)@ == old(self)@.push(card),
    {
        proof {
            use_type_invariant(&*self);
        }
        let mut cards: [u8; 12] = self.cards;
        let len: u8 = self.len;
        cards[len as usize] = card;
        let h = Hand { cards, len: len + 1 };
        assert(h@ =~= self@.push(card));
        *self = h;
    }

    /// Number of cards held.
    pub fn len(&self) -> (n: usize)
        ensures
            n == self@.len(),
            n <= MAX_HAND_SIZE,
    {
        proof {
            use_type_invariant(self);
        }
        self.len as usize
    }

    /// The cards held, oldest first.
    pub fn cards(&self) -> (s: &[u8])
        ensures
            s@ == self@,
            s@.len() <= MAX_HAND_SIZE,
    {
        proof {
            use_type_invariant(self);
        }
        slice_subrange(self.cards.as_slice(), 0, self.len as usize)
    }

    /// The first card, or zero for an empty hand.
    pub fn first(&self) -> (c: u8)
        ensures
            c == (if self@.len() >= 1 { self@[0] } else { 0 }),
    {
        proof {
            use_type_invariant(self);
        }
        self.cards[0]
    }

    /// The second card, or zero where the hand holds fewer than two.
    pub fn second(&self) -> (c: u8)
        ensures
            c == (if self@.len() >= 2 { self@[1] } else { 0 }),
    {
        proof {
            use_type_invariant(self);
        }
        self.cards[1]
    }
}

impl Default for Hand {
    fn default() -> (h: Hand)
        ensures
            h@ == Seq::<u8>::empty(),
    {
        Hand::new()
    }
}

/// Number of equally likely faces of the deck: two to nine, four faces worth
/// ten, and the ace.
pub const FACES: usize = 13;

/// Whether `card` is a value the deck deals: 2 to 10, or 11 for an ace.
pub open spec fn is_card(card: u8) -> bool {
    2 <= card <= ACE
}

/// Card value of face `index`: faces 0 to 7 are worth 2 to 9, faces 8 to 11
/// are worth ten, and face 12 is the ace.
pub open spec fn card_at(index: int) -> u8 {
    if index < 8 {
        (index + 2) as u8
    } else if index < 12 {
        10
    } else {
        ACE
    }
}

/// How many of the first `upto` faces are worth `card`.
pub open spec fn card_weight(card: u8, upto: nat) -> nat
    decreases upto,
{
    if upto == 0 {
        0
    } else {
        card_weight(card, (upto - 1) as nat) + if card_at(upto - 1) == card {
            1nat
        } else {
            0nat
        }
    }
}

/// Of the thirteen faces four are worth ten and one is worth each other card
/// value, so a uniform face deals ten with weight 4 and every other card with
/// weight 1.
pub proof fn lemma_card_weights(card: u8)
    ensures
        card_weight(card, FACES as nat) == (if card == 10 {
            4nat
        } else if is_card(card) {
            1nat
        } else {
            0nat
        }),
{
    reveal_with_fuel(card_weight, 14);
}

/// Card value of a face.
pub fn card_for_index(index: usize) -> (card: u8)
    requires
        index < FACES,
    ensures
        card == card_at(index as int),
        is_card(card),
{
    if index < 8 {
        index as u8 + 2
    } else if index < 12 {
        10
    } else {
        ACE
    }
}

/// The generator of `fastrand`, held as a value that nothing is known of.
#[verifier::external_type_specification]
#[verifier::external_body]
pub struct ExRng(fastrand::Rng);

/// Calls `fastrand::Rng::new`, which seeds a generator from the thread's
/// own. Nothing is claimed of the generator that comes back.
#[verifier::external_body]
fn fresh_rng() -> (rng: fastrand::Rng) {
    fastrand::Rng::new()
}

/// Calls `fastrand::Rng::usize` on the range from 0 up to and without
/// `bound`. The claim is only that the number lies in that range; an empty
/// range, on which the generator panics, is left out.
#[verifier::external_body]
fn index_below(rng: &mut fastrand::Rng, bound: usize) -> (index: usize)
    requires
        bound > 0,
    ensures
        index < bound,
{
    rng.usize(0..bound)
}

/// A deck that never runs out: every draw is independent of those before it.
///
/// The deck remembers, for proofs only, every card it has dealt.
pub struct InfiniteDeck {
    rng: fastrand::Rng,
    dealt: Ghost<Seq<u8>>,
}

impl InfiniteDeck {
    /// All cards dealt so far, oldest first.
    pub closed spec fn dealt(&self) -> Seq<u8> {
        self.dealt@
    }

    /// A deck with a generator of its own that has dealt nothing yet.
    pub fn new() -> (deck: InfiniteDeck)
        ensures
            deck.dealt() == Seq::<u8>::empty(),
    {
        InfiniteDeck { rng: fresh_rng(), dealt: Ghost(Seq::empty()) }
    }

    /// Deals one card: the value of a face picked among the thirteen.
    pub fn draw(&mut self) -> (card: u8)
        ensures
            final(self).dealt() == old(self).dealt().push(card),
            is_card(card),
    {
        let index: usize = index_below(&mut self.rng, FACES);
        let card: u8 = card_for_index(index);
        self.dealt = Ghost(self.dealt@.push(card));
        card
    }
}

impl Default for InfiniteDeck {
    fn default() -> (deck: InfiniteDeck)
        ensures
            deck.dealt() == Seq::<u8>::empty(),
    {
        InfiniteDeck::new()
    }
}

/// Sum of the cards as written, each ace counting eleven.
pub open spec fn card_sum(cards: Seq<u8>) -> nat
    decreases cards.len(),
{
    if cards.len() == 0 {
        0
    } else {
        card_sum(cards.drop_last()) + cards.last() as nat
    }
}

/// Number of aces among the cards.
pub open spec fn ace_count(cards: Seq<u8>) -> nat
    decreases cards.len(),
{
    if cards.len() == 0 {
        0
    } else {
        ace_count(cards.drop_last()) + if cards.last() == ACE {
            1nat
        } else {
            0nat
        }
    }
}

/// How many aces count one instead of eleven: the fewest that bring a sum of
/// `sum` down to 21 or less, or all `aces` of them where even that leaves
/// more than 21.
pub open spec fn demoted_aces(sum: nat, aces: nat) -> nat {
    let needed = if sum <= 21 {
        0nat
    } else {
        ((sum - 21 + 9) / 10) as nat
    };
    if needed <= aces {
        needed
    } else {
        aces
    }
}

/// Total of a hand after its aces have been softened as far as needed.
pub open spec fn hand_total(cards: Seq<u8>) -> nat {
    (card_sum(cards) - 10 * demoted_aces(card_sum(cards), ace_count(cards))) as nat
}

/// Whether some ace of the hand still counts eleven.
pub open spec fn hand_is_soft(cards: Seq<u8>) -> bool {
    demoted_aces(card_sum(cards), ace_count(cards)) < ace_count(cards)
}

/// A two-card hand that totals 21.
pub open spec fn is_natural(cards: Seq<u8>) -> bool {
    cards.len() == 2 && hand_total(cards) == 21
}

/// Every ace adds eleven to the sum, and no card adds more than 255.
pub proof fn lemma_card_sum_bounds(cards: Seq<u8>)
    ensures
        11 * ace_count(cards) <= card_sum(cards) <= 255 * cards.len(),
        ace_count(cards) <= cards.len(),
    decreases cards.len(),
{
    if cards.len() > 0 {
        lemma_card_sum_bounds(cards.drop_last());
    }
}

/// Sum and ace count of a hand that has taken one more card.
pub proof fn lemma_card_sum_push(cards: Seq<u8>, card: u8)
    ensures
        card_sum(cards.push(card)) == card_sum(cards) + card,
        ace_count(cards.push(card)) == ace_count(cards) + if card == ACE {
            1nat
        } else {
            0nat
        },
{
    assert(cards.push(card).drop_last() =~= cards);
}

/// Sum and ace count of a two-card hand.
pub proof fn lemma_card_sum_pair(c1: u8, c2: u8)
    ensures
        card_sum(seq![c1, c2]) == c1 + c2,
        ace_count(seq![c1, c2]) == (if c1 == ACE {
            1nat
        } else {
            0nat
        }) + (if c2 == ACE {
            1nat
        } else {
            0nat
        }),
{
    let empty = Seq::<u8>::empty();
    assert(seq![c1, c2] =~= empty.push(c1).push(c2));
    lemma_card_sum_push(empty, c1);
    lemma_card_sum_push(empty.push(c1), c2);
}

/// A hand reports more than 21 only when none of its aces still counts
/// eleven, it is soft only at 21 or less, and no ace is counted as one without
/// need: putting ten back would pass 21.
pub proof fn lemma_softening_is_minimal(cards: Seq<u8>)
    ensures
        hand_total(cards) > 21 ==> !hand_is_soft(cards),
        hand_is_soft(cards) ==> hand_total(cards) <= 21,
        hand_total(cards) < card_sum(cards) ==> hand_total(cards) + 10 > 21,
        hand_total(cards) + 10 * ace_count(cards) >= card_sum(cards),
{
    lemma_card_sum_bounds(cards);
}

/// Total of the hand and whether it is soft.
pub fn hand_value(hand: &Hand) -> (v: (u16, bool))
    ensures
        v.0 == hand_total(hand@),
        v.1 == hand_is_soft(hand@),
        v.0 > 21 ==> !v.1,
{
    let cards = hand.cards();
    let mut total: u16 = 0;
    let mut aces: u8 = 0;
    let mut i: usize = 0;
    while i < cards.len()
        invariant
            i <= cards.len() <= MAX_HAND_SIZE,
            cards@ == hand@,
            total == card_sum(cards@.take(i as int)),
            aces == ace_count(cards@.take(i as int)),
            total <= 255 * i,
            aces <= i,
        decreases cards.len() - i,
    {
        let card: u8 = cards[i];
        proof {
            lemma_card_sum_push(cards@.take(i as int), card);
            assert(cards@.take(i as int).push(card) =~= cards@.take(i + 1));
        }
        total += card as u16;
        if card == ACE {
            aces += 1;
        }
        i += 1;
    }
    assert(cards@.take(i as int) =~= hand@);
    proof {
        lemma_card_sum_bounds(hand@);
    }
    let ghost sum = total as nat;
    let ghost held = aces as nat;
    while total > 21 && aces > 0
        invariant
            sum == card_sum(hand@),
            held == ace_count(hand@),
            11 * held <= sum,
            aces <= held,
            total == sum - 10 * (held - aces),
            aces < held ==> total + 10 > 21,
        decreases aces,
    {
        total -= 10;
        aces -= 1;
    }
    (total, aces > 0)
}

/// Whether the hand is a natural: two cards that total 21.
pub fn is_blackjack(hand: &Hand) -> (b: bool)
    ensures
        b == is_natural(hand@),
{
    hand.len() == 2 && hand_value(hand).0 == 21
}

/// Whether the hand totals more than 21 after softening.
pub fn is_bust(hand: &Hand) -> (b: bool)
    ensures
        b == (hand_total(hand@) > 21),
{
    hand_value(hand).0 > 21
}

/// A decision state: the player's total, the dealer's up-card, and whether the
/// hand is soft or a pair.
#[derive(Debug, Clone, Copy, PartialEq, Eq, Hash, Structural)]
pub struct PlayerState {
    pub total: u8,
    pub dealer_upcard: u8,
    pub is_soft: bool,
    pub is_pair: bool,
}

impl PlayerState {
    pub fn new(total: u8, dealer_upcard: u8, is_soft: bool, is_pair: bool) -> (s: PlayerState)
        ensures
            s == (PlayerState { total, dealer_upcard, is_soft, is_pair }),
    {
        PlayerState { total, dealer_upcard, is_soft, is_pair }
    }
}

/// The two cards that stand for a state.
///
/// A pair is its card twice, a soft hand an ace and the rest, a hard hand of
/// 11 or less a two and the rest, a hard hand of 12 to 19 a ten and the rest,
/// and anything higher two tens. A hard total under 4 is a lone card beside an
/// empty slot.
pub open spec fn state_cards(total: u8, is_soft: bool, is_pair: bool) -> Seq<u8> {
    if is_pair {
        if is_soft {
            seq![ACE, ACE]
        } else {
            seq![total / 2, total / 2]
        }
    } else if is_soft {
        seq![ACE, (total - 11) as u8]
    } else if total <= 11 {
        if total >= 4 {
            seq![2u8, (total - 2) as u8]
        } else {
            seq![total, 0u8]
        }
    } else if total <= 19 {
        seq![10u8, (total - 10) as u8]
    } else {
        seq![10u8, 10u8]
    }
}

/// The starting hand that stands for a state. A soft hand that is no pair
/// holds an ace, so its total is at least 11.
pub fn get_hand_for_state(total: u8, is_soft: bool, is_pair: bool) -> (h: Hand)
    requires
        is_soft && !is_pair ==> total >= 11,
    ensures
        h@ == state_cards(total, is_soft, is_pair),
{
    if is_pair {
        if is_soft {
            Hand::from_cards(ACE, ACE)
        } else {
            let card: u8 = total / 2;
            Hand::from_cards(card, card)
        }
    } else if is_soft {
        Hand::from_cards(ACE, total - 11)
    } else if total <= 11 {
        if total >= 4 {
            Hand::from_cards(2, total - 2)
        } else {
            Hand::from_cards(total, 0)
        }
    } else if total <= 19 {
        Hand::from_cards(10, total - 10)
    } else {
        Hand::from_cards(10, 10)
    }
}

/// Whether a state is one of the decision states that play can reach: a hard
/// total of 5 to 21, a soft total of 13 to 20, or a pair of twos up to aces.
pub open spec fn in_state_space(total: u8, is_soft: bool, is_pair: bool) -> bool {
    if is_pair {
        if is_soft {
            total == 12
        } else {
            4 <= total <= 20 && total % 2 == 0
        }
    } else if is_soft {
        13 <= total <= 20
    } else {
        5 <= total <= 21
    }
}

/// The hand that stands for a reachable state has that state's total and
/// softness, and is a pair of equal cards exactly where the state is a pair.
/// Hard 21 is left out: no two cards make it, and two tens stand for it.
pub proof fn lemma_state_cards_match(total: u8, is_soft: bool, is_pair: bool)
    requires
        in_state_space(total, is_soft, is_pair),
        is_soft || is_pair || total != 21,
    ensures
        state_cards(total, is_soft, is_pair).len() == 2,
        hand_total(state_cards(total, is_soft, is_pair)) == total,
        hand_is_soft(state_cards(total, is_soft, is_pair)) == is_soft,
        is_pair ==> state_cards(total, is_soft, is_pair)[0] == state_cards(
            total,
            is_soft,
            is_pair,
        )[1],
{
    let cards = state_cards(total, is_soft, is_pair);
    lemma_card_sum_pair(cards[0], cards[1]);
    assert(cards =~= seq![cards[0], cards[1]]);
}

} // verus!
