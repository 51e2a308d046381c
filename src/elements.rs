use vstd::prelude::*;

verus! {

/// A card rank, or the wildcard `JOKER`.
#[derive(Debug, Clone, Copy, PartialEq, Eq, Structural)]
pub enum Card {
    ACE,
    TWO,
    THREE,
    FOUR,
    FIVE,
    SIX,
    SEVEN,
    EIGHT,
    NINE,
    TEN,
    JACK,
    QUEEN,
    KING,
    JOKER,
}

/// Wildcard-aware equivalence: equal cards, or either one is the Joker.
pub open spec fn equivalent_spec(a: Card, b: Card) -> bool {
    a == Card::JOKER || b == Card::JOKER || a == b
}

impl Card {
    pub fn equivalent(card1: Card, card2: Card) -> (r: bool)
        ensures
            r == equivalent_spec(card1, card2),
    {
        card1 == Card::JOKER || card2 == Card::JOKER || card1 == card2
    }
}

/// The Joker is equivalent to every card, in either position; two other
/// cards are equivalent exactly when they are equal.
pub proof fn lemma_equivalence_laws(x: Card, y: Card)
    ensures
        equivalent_spec(Card::JOKER, x),
        equivalent_spec(x, Card::JOKER),
        x != Card::JOKER && y != Card::JOKER ==> (equivalent_spec(x, y) == (x == y)),
        equivalent_spec(x, y) == equivalent_spec(y, x),
        equivalent_spec(x, x),
{
}

/// The fixed deck that new cards are drawn from, by position.
pub open spec fn deck_card(k: int) -> Card {
    if k == 0 {
        Card::ACE
    } else if k == 1 {
        Card::TWO
    } else if k == 2 {
        Card::THREE
    } else if k == 3 {
        Card::FOUR
    } else if k == 4 {
        Card::FIVE
    } else if k == 5 {
        Card::SIX
    } else if k == 6 {
        Card::SEVEN
    } else if k == 7 {
        Card::EIGHT
    } else if k == 8 {
        Card::NINE
    } else if k == 9 {
        Card::TEN
    } else if k == 10 {
        Card::JACK
    } else if k == 11 {
        Card::QUEEN
    } else if k == 12 {
        Card::KING
    } else {
        Card::JOKER
    }
}

/// Number of cards in the deck.
pub const DECK_SIZE: u64 = 14;

/// The cards that a draw of `num` cards from `seed` yields.
pub open spec fn drawn(seed: nat, num: nat) -> Seq<Card> {
    Seq::new(num, |i: int| deck_card((seed + i) % (DECK_SIZE as int)))
}

fn deck_at(k: u64) -> (c: Card)
    requires
        k < DECK_SIZE,
    ensures
        c == deck_card(k as int),
{
    let deck: [Card; 14] = [
        Card::ACE,
        Card::TWO,
        Card::THREE,
        Card::FOUR,
        Card::FIVE,
        Card::SIX,
        Card::SEVEN,
        Card::EIGHT,
        Card::NINE,
        Card::TEN,
        Card::JACK,
        Card::QUEEN,
        Card::KING,
        Card::JOKER,
    ];
    deck[k as usize]
}

/// Draws `num` cards: the `i`-th is the deck card at `(seed + i) mod 14`.
/// The seed is a monotonic counter supplied by the host.
pub fn get_random_cards(seed: u64, num: u32) -> (r: Vec<Card>)
    ensures
        r@ == drawn(seed as nat, num as nat),
{
    let mut r: Vec<Card> = Vec::new();
    let base: u64 = seed % DECK_SIZE;
    let mut i: u32 = 0;
    while i < num
        invariant
            i <= num,
            base as int == (seed as int) % (DECK_SIZE as int),
            r@ == drawn(seed as nat, i as nat),
        decreases num - i,
    {
        let k: u64 = (base + (i as u64) % DECK_SIZE) % DECK_SIZE;
        assert(k as int == (seed + i) % (DECK_SIZE as int)) by (nonlinear_arith)
            requires
                base == seed % 14,
                k == (base + i % 14) % 14,
                DECK_SIZE == 14,
        {
            assert((seed + i) % 14 == (seed % 14 + i % 14) % 14) by (nonlinear_arith);
        }
        r.push(deck_at(k));
        i = i + 1;
        assert(r@ =~= drawn(seed as nat, i as nat));
    }
    r
}

/// A user's record: identity, biography, balance (in tenths of a unit) and
/// the multiset of cards held, as a sequence.
#[derive(Debug, Clone)]
pub struct User {
    pub user_id: String,
    pub bio: String,
    pub balance: i64,
    pub cards: Vec<Card>,
}

/// What a user record holds, as mathematical values.
pub struct UserView {
    pub id: Seq<char>,
    pub bio: Seq<char>,
    pub balance: int,
    pub cards: Seq<Card>,
}

impl View for User {
    type V = UserView;

    open spec fn view(&self) -> UserView {
        UserView { id: self.user_id@, bio: self.bio@, balance: self.balance as int, cards: self.cards@ }
    }
}

/// A user's commitment of cards behind a hand's claim.
#[derive(Debug, Clone)]
pub struct Stake {
    pub user_id: String,
    pub cards: Vec<Card>,
}

/// What a stake holds, as mathematical values.
pub struct StakeView {
    pub user_id: Seq<char>,
    pub cards: Seq<Card>,
}

impl View for Stake {
    type V = StakeView;

    open spec fn view(&self) -> StakeView {
        StakeView { user_id: self.user_id@, cards: self.cards@ }
    }
}

/// One game: a claimed card and the stakes made behind it, in order.
#[derive(Debug, Clone)]
pub struct Hand {
    pub hand_id: String,
    pub creator: String,
    pub claimed_card: Card,
    pub is_resolved: bool,
    pub stakes: Vec<Stake>,
}

/// What a hand holds, as mathematical values.
pub struct HandView {
    pub id: Seq<char>,
    pub creator: Seq<char>,
    pub claim: Card,
    pub resolved: bool,
    pub stakes: Seq<StakeView>,
}

impl View for Hand {
    type V = HandView;

    open spec fn view(&self) -> HandView {
        HandView {
            id: self.hand_id@,
            creator: self.creator@,
            claim: self.claimed_card,
            resolved: self.is_resolved,
            stakes: self.stakes@.map_values(|s: Stake| s@),
        }
    }
}

/// An auction of escrowed cards. Prices and bids are in tenths of a unit.
#[derive(Debug, Clone)]
pub struct Offer {
    pub offer_id: String,
    pub creator_id: String,
    pub cards: Vec<Card>,
    pub initial_price: i64,
    pub current_bid: Option<i64>,
    pub current_bidder_id: Option<String>,
    pub is_resolved: bool,
}

/// What an offer holds, as mathematical values.
pub struct OfferView {
    pub id: Seq<char>,
    pub creator: Seq<char>,
    pub cards: Seq<Card>,
    pub price: int,
    pub bid: Option<int>,
    pub bidder: Option<Seq<char>>,
    pub resolved: bool,
}

impl View for Offer {
    type V = OfferView;

    open spec fn view(&self) -> OfferView {
        OfferView {
            id: self.offer_id@,
            creator: self.creator_id@,
            cards: self.cards@,
            price: self.initial_price as int,
            bid: match self.current_bid {
                Some(b) => Some(b as int),
                None => None,
            },
            bidder: match self.current_bidder_id {
                Some(b) => Some(b@),
                None => None,
            },
            resolved: self.is_resolved,
        }
    }
}

/// The hand is a bluff when some card of its last stake is not equivalent
/// to the claim.
pub open spec fn bluff_spec(hand: HandView) -> bool {
    let last = hand.stakes.last().cards;
    exists|k: int| 0 <= k < last.len() && !equivalent_spec(#[trigger] last[k], hand.claim)
}

/// Tells whether the last stake of `hand` holds a card that is not
/// equivalent to the claimed card.
pub fn is_bluff(hand: &Hand) -> (r: bool)
    requires
        hand.stakes@.len() > 0,
    ensures
        r == bluff_spec(hand@),
{
    let claim_card = hand.claimed_card;
    let last_stake = &hand.stakes[hand.stakes.len() - 1];
    let mut i: usize = 0;
    while i < last_stake.cards.len()
        invariant
            0 <= i <= last_stake.cards@.len(),
            hand@.stakes.len() > 0,
            last_stake@ == hand@.stakes.last(),
            forall|k: int| 0 <= k < i ==> equivalent_spec(#[trigger] last_stake.cards@[k], claim_card),
            claim_card == hand.claimed_card,
        decreases last_stake.cards@.len() - i,
    {
        if !Card::equivalent(last_stake.cards[i], claim_card) {
            assert(!equivalent_spec(hand@.stakes.last().cards[i as int], hand@.claim));
            return true;
        }
        i = i + 1;
    }
    false
}

/// A last stake of a single Joker never makes a bluff of a claimed King, and
/// a last stake of a single Two always does.
pub proof fn lemma_bluff_of_single_card_stake(hand: HandView)
    requires
        hand.stakes.len() > 0,
        hand.claim == Card::KING,
    ensures
        hand.stakes.last().cards == seq![Card::JOKER] ==> !bluff_spec(hand),
        hand.stakes.last().cards == seq![Card::TWO] ==> bluff_spec(hand),
{
    if hand.stakes.last().cards == seq![Card::TWO] {
        assert(!equivalent_spec(hand.stakes.last().cards[0], Card::KING));
    }
}

} // verus!
