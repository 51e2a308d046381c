use vstd::prelude::*;
use crate::elements::{Card, Hand, HandView, Offer, OfferView, Stake, StakeView, User, UserView};
use crate::ledger::{copy_cards, EscalateError};

verus! {

/// The whole engine state: ledger, hand table, offer table and the two
/// identifier counters. Users, hands and offers are kept in the order in
/// which they were created.
pub struct EscalateContractState {
    pub users: Vec<User>,
    pub hands: Vec<Hand>,
    pub offers: Vec<Offer>,
    pub hand_counter: u64,
    pub offer_counter: u64,
}

/// The engine state as mathematical values.
pub struct EscalateView {
    pub users: Seq<UserView>,
    pub hands: Seq<HandView>,
    pub offers: Seq<OfferView>,
    pub hand_counter: int,
    pub offer_counter: int,
}

impl View for EscalateContractState {
    type V = EscalateView;

    open spec fn view(&self) -> EscalateView {
        EscalateView {
            users: self.users@.map_values(|u: User| u@),
            hands: self.hands@.map_values(|h: Hand| h@),
            offers: self.offers@.map_values(|o: Offer| o@),
            hand_counter: self.hand_counter as int,
            offer_counter: self.offer_counter as int,
        }
    }
}

/// Sum of a sequence of integers.
pub open spec fn sum(s: Seq<int>) -> int
    decreases s.len(),
{
    if s.len() == 0 {
        0
    } else {
        sum(s.drop_last()) + s.last()
    }
}

pub proof fn lemma_sum_update(s: Seq<int>, i: int, v: int)
    requires
        0 <= i < s.len(),
    ensures
        sum(s.update(i, v)) == sum(s) - s[i] + v,
    decreases s.len(),
{
    if i == s.len() - 1 {
        assert(s.update(i, v).drop_last() =~= s.drop_last());
    } else {
        lemma_sum_update(s.drop_last(), i, v);
        assert(s.update(i, v).drop_last() =~= s.drop_last().update(i, v));
    }
}

pub proof fn lemma_sum_push(s: Seq<int>, v: int)
    ensures
        sum(s.push(v)) == sum(s) + v,
{
    assert(s.push(v).drop_last() =~= s);
}

/// Number of cards held in a sequence of stakes.
pub open spec fn staked_count(stakes: Seq<StakeView>) -> int {
    sum(stakes.map_values(|s: StakeView| s.cards.len() as int))
}

/// Cards escrowed by a hand: its stakes while it is open, none once resolved.
pub open spec fn hand_escrow(h: HandView) -> int {
    if h.resolved {
        0
    } else {
        staked_count(h.stakes)
    }
}

/// Cards escrowed by an offer: its cards while it is open.
pub open spec fn offer_escrow(o: OfferView) -> int {
    if o.resolved {
        0
    } else {
        o.cards.len() as int
    }
}

/// Money escrowed by an offer: its standing bid while it is open.
pub open spec fn offer_funds(o: OfferView) -> int {
    if !o.resolved && o.bid is Some {
        o.bid->0
    } else {
        0
    }
}

pub open spec fn inventory_total(users: Seq<UserView>) -> int {
    sum(users.map_values(|u: UserView| u.cards.len() as int))
}

pub open spec fn balance_total(users: Seq<UserView>) -> int {
    sum(users.map_values(|u: UserView| u.balance))
}

/// Every card in the system: in inventories, in open hands, in open offers.
pub open spec fn total_cards(v: EscalateView) -> int {
    inventory_total(v.users) + sum(v.hands.map_values(|h: HandView| hand_escrow(h))) + sum(
        v.offers.map_values(|o: OfferView| offer_escrow(o)),
    )
}

/// All money in the system: balances and the standing bids of open offers.
pub open spec fn total_funds(v: EscalateView) -> int {
    balance_total(v.users) + sum(v.offers.map_values(|o: OfferView| offer_funds(o)))
}

pub proof fn lemma_users_update(users: Seq<UserView>, k: int, u: UserView)
    requires
        0 <= k < users.len(),
    ensures
        inventory_total(users.update(k, u)) == inventory_total(users) - users[k].cards.len()
            + u.cards.len(),
        balance_total(users.update(k, u)) == balance_total(users) - users[k].balance + u.balance,
{
    let f = |x: UserView| x.cards.len() as int;
    let g = |x: UserView| x.balance;
    assert(users.update(k, u).map_values(f) =~= users.map_values(f).update(k, f(u)));
    assert(users.update(k, u).map_values(g) =~= users.map_values(g).update(k, g(u)));
    lemma_sum_update(users.map_values(f), k, f(u));
    lemma_sum_update(users.map_values(g), k, g(u));
}

pub proof fn lemma_users_push(users: Seq<UserView>, u: UserView)
    ensures
        inventory_total(users.push(u)) == inventory_total(users) + u.cards.len(),
        balance_total(users.push(u)) == balance_total(users) + u.balance,
{
    let f = |x: UserView| x.cards.len() as int;
    let g = |x: UserView| x.balance;
    assert(users.push(u).map_values(f) =~= users.map_values(f).push(f(u)));
    assert(users.push(u).map_values(g) =~= users.map_values(g).push(g(u)));
    lemma_sum_push(users.map_values(f), f(u));
    lemma_sum_push(users.map_values(g), g(u));
}

pub proof fn lemma_hands_update(hands: Seq<HandView>, k: int, h: HandView)
    requires
        0 <= k < hands.len(),
    ensures
        sum(hands.update(k, h).map_values(|x: HandView| hand_escrow(x))) == sum(
            hands.map_values(|x: HandView| hand_escrow(x)),
        ) - hand_escrow(hands[k]) + hand_escrow(h),
{
    let f = |x: HandView| hand_escrow(x);
    assert(hands.update(k, h).map_values(f) =~= hands.map_values(f).update(k, f(h)));
    lemma_sum_update(hands.map_values(f), k, f(h));
}

pub proof fn lemma_hands_push(hands: Seq<HandView>, h: HandView)
    ensures
        sum(hands.push(h).map_values(|x: HandView| hand_escrow(x))) == sum(
            hands.map_values(|x: HandView| hand_escrow(x)),
        ) + hand_escrow(h),
{
    let f = |x: HandView| hand_escrow(x);
    assert(hands.push(h).map_values(f) =~= hands.map_values(f).push(f(h)));
    lemma_sum_push(hands.map_values(f), f(h));
}

pub proof fn lemma_offers_update(offers: Seq<OfferView>, k: int, o: OfferView)
    requires
        0 <= k < offers.len(),
    ensures
        sum(offers.update(k, o).map_values(|x: OfferView| offer_escrow(x))) == sum(
            offers.map_values(|x: OfferView| offer_escrow(x)),
        ) - offer_escrow(offers[k]) + offer_escrow(o),
        sum(offers.update(k, o).map_values(|x: OfferView| offer_funds(x))) == sum(
            offers.map_values(|x: OfferView| offer_funds(x)),
        ) - offer_funds(offers[k]) + offer_funds(o),
{
    let f = |x: OfferView| offer_escrow(x);
    let g = |x: OfferView| offer_funds(x);
    assert(offers.update(k, o).map_values(f) =~= offers.map_values(f).update(k, f(o)));
    assert(offers.update(k, o).map_values(g) =~= offers.map_values(g).update(k, g(o)));
    lemma_sum_update(offers.map_values(f), k, f(o));
    lemma_sum_update(offers.map_values(g), k, g(o));
}

pub proof fn lemma_offers_push(offers: Seq<OfferView>, o: OfferView)
    ensures
        sum(offers.push(o).map_values(|x: OfferView| offer_escrow(x))) == sum(
            offers.map_values(|x: OfferView| offer_escrow(x)),
        ) + offer_escrow(o),
        sum(offers.push(o).map_values(|x: OfferView| offer_funds(x))) == sum(
            offers.map_values(|x: OfferView| offer_funds(x)),
        ) + offer_funds(o),
{
    let f = |x: OfferView| offer_escrow(x);
    let g = |x: OfferView| offer_funds(x);
    assert(offers.push(o).map_values(f) =~= offers.map_values(f).push(f(o)));
    assert(offers.push(o).map_values(g) =~= offers.map_values(g).push(g(o)));
    lemma_sum_push(offers.map_values(f), f(o));
    lemma_sum_push(offers.map_values(g), g(o));
}

/// `users[k]` is the record of `id`.
pub open spec fn user_at(users: Seq<UserView>, id: Seq<char>, k: int) -> bool {
    0 <= k < users.len() && users[k].id == id
}

pub open spec fn registered(users: Seq<UserView>, id: Seq<char>) -> bool {
    exists|k: int| user_at(users, id, k)
}

/// `hands[k]` is the first hand whose identifier is `id`.
pub open spec fn hand_at(hands: Seq<HandView>, id: Seq<char>, k: int) -> bool {
    0 <= k < hands.len() && hands[k].id == id && forall|j: int| 0 <= j < k ==> hands[j].id != id
}

pub open spec fn has_hand(hands: Seq<HandView>, id: Seq<char>) -> bool {
    exists|k: int| 0 <= k < hands.len() && hands[k].id == id
}

/// `offers[k]` is the first offer whose identifier is `id`.
pub open spec fn offer_at(offers: Seq<OfferView>, id: Seq<char>, k: int) -> bool {
    0 <= k < offers.len() && offers[k].id == id && forall|j: int| 0 <= j < k ==> offers[j].id != id
}

pub open spec fn has_offer(offers: Seq<OfferView>, id: Seq<char>) -> bool {
    exists|k: int| 0 <= k < offers.len() && offers[k].id == id
}

/// A hand holds at least one stake, and every staker is registered.
pub open spec fn hand_ok(users: Seq<UserView>, h: HandView) -> bool {
    &&& h.stakes.len() > 0
    &&& forall|j: int| 0 <= j < h.stakes.len() ==> registered(users, #[trigger] h.stakes[j].user_id)
}

/// An offer has a bid and a bidder together, a positive bid, and registered
/// creator and bidder.
pub open spec fn offer_ok(users: Seq<UserView>, o: OfferView) -> bool {
    &&& (o.bid is Some) == (o.bidder is Some)
    &&& o.bid is Some ==> o.bid->0 > 0
    &&& registered(users, o.creator)
    &&& o.bidder is Some ==> registered(users, o.bidder->0)
    &&& o.bidder is Some ==> o.bidder->0 != o.creator
}

/// The invariant of the engine state: one record per user, and every hand
/// and offer well formed.
pub open spec fn valid(v: EscalateView) -> bool {
    &&& forall|i: int, j: int|
        0 <= i < v.users.len() && 0 <= j < v.users.len() && i != j ==> v.users[i].id
            != v.users[j].id
    &&& forall|k: int| 0 <= k < v.hands.len() ==> hand_ok(v.users, #[trigger] v.hands[k])
    &&& forall|k: int| 0 <= k < v.offers.len() ==> offer_ok(v.users, #[trigger] v.offers[k])
}

/// Two user tables with the same identities in the same places.
pub open spec fn same_ids(a: Seq<UserView>, b: Seq<UserView>) -> bool {
    a.len() == b.len() && forall|i: int| 0 <= i < a.len() ==> #[trigger] a[i].id == b[i].id
}

pub proof fn lemma_same_ids_registered(a: Seq<UserView>, b: Seq<UserView>)
    requires
        same_ids(a, b),
    ensures
        forall|id: Seq<char>| #[trigger] registered(a, id) == registered(b, id),
{
    assert forall|id: Seq<char>| #[trigger] registered(a, id) == registered(b, id) by {
        if registered(a, id) {
            let k = choose|k: int| user_at(a, id, k);
            assert(user_at(b, id, k));
        }
        if registered(b, id) {
            let k = choose|k: int| user_at(b, id, k);
            assert(user_at(a, id, k));
        }
    }
}

/// The invariant survives a change of balances and inventories, of hands and
/// of offers, when the changed records are well formed.
pub proof fn lemma_valid_frame(old: EscalateView, new: EscalateView)
    requires
        valid(old),
        same_ids(old.users, new.users),
        forall|k: int| 0 <= k < new.hands.len() ==> hand_ok(new.users, #[trigger] new.hands[k]) || (
        k < old.hands.len() && new.hands[k] == old.hands[k]),
        forall|k: int|
            0 <= k < new.offers.len() ==> offer_ok(new.users, #[trigger] new.offers[k]) || (k
                < old.offers.len() && new.offers[k] == old.offers[k]),
    ensures
        valid(new),
{
    lemma_same_ids_registered(old.users, new.users);
    assert forall|i: int, j: int|
        0 <= i < new.users.len() && 0 <= j < new.users.len() && i != j implies new.users[i].id
            != new.users[j].id by {
        assert(old.users[i].id == new.users[i].id);
        assert(old.users[j].id == new.users[j].id);
    }
    assert forall|k: int| 0 <= k < new.hands.len() implies hand_ok(
        new.users,
        #[trigger] new.hands[k],
    ) by {
        if !hand_ok(new.users, new.hands[k]) {
            assert(hand_ok(old.users, old.hands[k]));
        }
    }
    assert forall|k: int| 0 <= k < new.offers.len() implies offer_ok(
        new.users,
        #[trigger] new.offers[k],
    ) by {
        if !offer_ok(new.users, new.offers[k]) {
            assert(offer_ok(old.users, old.offers[k]));
        }
    }
}

/// A user record with the same identity, biography and balance, whose
/// inventory is `cards`.
pub open spec fn with_cards(u: UserView, cards: Seq<Card>) -> UserView {
    UserView { cards, ..u }
}

/// A user record with balance `b`.
pub open spec fn with_balance(u: UserView, b: int) -> UserView {
    UserView { balance: b, ..u }
}

pub open spec fn fits_i64(x: int) -> bool {
    i64::MIN <= x <= i64::MAX
}

pub fn copy_user(u: &User) -> (r: User)
    ensures
        r@ == u@,
{
    User {
        user_id: u.user_id.clone(),
        bio: u.bio.clone(),
        balance: u.balance,
        cards: copy_cards(&u.cards),
    }
}

pub fn copy_stake(s: &Stake) -> (r: Stake)
    ensures
        r@ == s@,
{
    Stake { user_id: s.user_id.clone(), cards: copy_cards(&s.cards) }
}

pub fn copy_stakes(stakes: &Vec<Stake>) -> (r: Vec<Stake>)
    ensures
        r@.map_values(|s: Stake| s@) == stakes@.map_values(|s: Stake| s@),
{
    let mut r: Vec<Stake> = Vec::new();
    let mut i: usize = 0;
    while i < stakes.len()
        invariant
            0 <= i <= stakes@.len(),
            r@.len() == i,
            forall|j: int| 0 <= j < i ==> (#[trigger] r@[j])@ == stakes@[j]@,
        decreases stakes@.len() - i,
    {
        r.push(copy_stake(&stakes[i]));
        i = i + 1;
    }
    assert(r@.map_values(|s: Stake| s@) =~= stakes@.map_values(|s: Stake| s@));
    r
}

pub fn copy_hand(h: &Hand) -> (r: Hand)
    ensures
        r@ == h@,
{
    Hand {
        hand_id: h.hand_id.clone(),
        creator: h.creator.clone(),
        claimed_card: h.claimed_card,
        is_resolved: h.is_resolved,
        stakes: copy_stakes(&h.stakes),
    }
}

pub fn copy_offer(o: &Offer) -> (r: Offer)
    ensures
        r@ == o@,
{
    let bidder = match &o.current_bidder_id {
        Some(b) => Some(b.clone()),
        None => None,
    };
    Offer {
        offer_id: o.offer_id.clone(),
        creator_id: o.creator_id.clone(),
        cards: copy_cards(&o.cards),
        initial_price: o.initial_price,
        current_bid: o.current_bid,
        current_bidder_id: bidder,
        is_resolved: o.is_resolved,
    }
}

impl EscalateContractState {
    pub open spec fn wf(&self) -> bool {
        valid(self@)
    }

    /// Position of the record of `id`, if registered.
    pub fn find_user(&self, id: &String) -> (r: Option<usize>)
        ensures
            r matches Some(k) ==> user_at(self@.users, id@, k as int),
            r is None ==> !registered(self@.users, id@),
    {
        let mut k: usize = 0;
        while k < self.users.len()
            invariant
                0 <= k <= self.users@.len(),
                forall|j: int| 0 <= j < k ==> self@.users[j].id != id@,
            decreases self.users@.len() - k,
        {
            if self.users[k].user_id == *id {
                return Some(k);
            }
            k = k + 1;
        }
        None
    }

    /// Position of the first hand named `id`, if any.
    pub fn find_hand(&self, id: &String) -> (r: Option<usize>)
        ensures
            r matches Some(k) ==> hand_at(self@.hands, id@, k as int),
            r is None ==> !has_hand(self@.hands, id@),
    {
        let mut k: usize = 0;
        while k < self.hands.len()
            invariant
                0 <= k <= self.hands@.len(),
                forall|j: int| 0 <= j < k ==> self@.hands[j].id != id@,
            decreases self.hands@.len() - k,
        {
            if self.hands[k].hand_id == *id {
                return Some(k);
            }
            k = k + 1;
        }
        None
    }

    /// Position of the first offer named `id`, if any.
    pub fn find_offer(&self, id: &String) -> (r: Option<usize>)
        ensures
            r matches Some(k) ==> offer_at(self@.offers, id@, k as int),
            r is None ==> !has_offer(self@.offers, id@),
    {
        let mut k: usize = 0;
        while k < self.offers.len()
            invariant
                0 <= k <= self.offers@.len(),
                forall|j: int| 0 <= j < k ==> self@.offers[j].id != id@,
            decreases self.offers@.len() - k,
        {
            if self.offers[k].offer_id == *id {
                return Some(k);
            }
            k = k + 1;
        }
        None
    }
}

} // verus!
