use vstd::prelude::*;
use crate::elements::{Card, Offer, OfferView, UserView};
use crate::contract::{
    copy_offer, copy_user, lemma_offers_push, lemma_offers_update, lemma_users_update, offer_at,
    registered, total_cards, total_funds, user_at, has_offer, fits_i64, with_balance, with_cards,
    EscalateContractState, EscalateView, lemma_valid_frame, same_ids,
    lemma_same_ids_registered, offer_ok, valid,
};
use crate::ledger::{add_to_inventory, copy_cards, covers, first_missing, remove_cards_from_inventory, EscalateError};

verus! {

/// The lowest amount that a bid must exceed.
pub open spec fn min_bid(o: OfferView) -> int {
    match o.bid {
        Some(b) => b,
        None => o.price,
    }
}

/// The outcome of `bid` on a registered bidder at `ks` and an offer at `k`.
pub open spec fn bid_step(
    old: EscalateView,
    sender: Seq<char>,
    ks: int,
    k: int,
    amount: int,
    r: Result<(), EscalateError>,
    new: EscalateView,
) -> bool {
    let o = old.offers[k];
    let u = old.users[ks];
    let placed = OfferView { bid: Some(amount), bidder: Some(sender), ..o };
    if o.resolved {
        r == Err::<(), _>(EscalateError::AlreadyResolved)
    } else if o.creator == sender {
        r == Err::<(), _>(EscalateError::Unauthorized)
    } else if amount <= min_bid(o) || amount <= 0 {
        r == Err::<(), _>(EscalateError::InvalidAmount)
    } else if o.bidder is None {
        if u.balance < amount {
            r == Err::<(), _>(EscalateError::InsufficientBalance)
        } else {
            &&& r == Ok::<(), EscalateError>(())
            &&& new == EscalateView {
                users: old.users.update(ks, with_balance(u, u.balance - amount)),
                offers: old.offers.update(k, placed),
                ..old
            }
        }
    } else if o.bidder->0 == sender {
        let available = u.balance + o.bid->0;
        if !fits_i64(available) {
            r == Err::<(), _>(EscalateError::Overflow)
        } else if available < amount {
            r == Err::<(), _>(EscalateError::InsufficientBalance)
        } else {
            &&& r == Ok::<(), EscalateError>(())
            &&& new == EscalateView {
                users: old.users.update(ks, with_balance(u, available - amount)),
                offers: old.offers.update(k, placed),
                ..old
            }
        }
    } else {
        forall|kp: int|
            user_at(old.users, o.bidder->0, kp) ==> {
                let p = old.users[kp];
                if !fits_i64(p.balance + o.bid->0) {
                    r == Err::<(), _>(EscalateError::Overflow)
                } else if u.balance < amount {
                    r == Err::<(), _>(EscalateError::InsufficientBalance)
                } else {
                    &&& r == Ok::<(), EscalateError>(())
                    &&& new == EscalateView {
                        users: old.users.update(kp, with_balance(p, p.balance + o.bid->0)).update(
                            ks,
                            with_balance(u, u.balance - amount),
                        ),
                        offers: old.offers.update(k, placed),
                        ..old
                    }
                }
            }
    }
}

/// What `bid` does: refuses an unregistered bidder, an unknown offer, a
/// resolved offer, the offer's creator, or a bid that is not positive and
/// above the standing price; otherwise refunds the previous bidder and takes
/// the new bid from the bidder's balance, if it covers it.
pub open spec fn bid_post(
    old: EscalateView,
    sender: Seq<char>,
    id: Seq<char>,
    amount: int,
    r: Result<(), EscalateError>,
    new: EscalateView,
) -> bool {
    &&& !registered(old.users, sender) ==> r == Err::<(), _>(EscalateError::NotRegistered)
    &&& registered(old.users, sender) && !has_offer(old.offers, id) ==> r == Err::<(), _>(
        EscalateError::NotFound,
    )
    &&& forall|ks: int, k: int|
        user_at(old.users, sender, ks) && offer_at(old.offers, id, k) ==> bid_step(
            old,
            sender,
            ks,
            k,
            amount,
            r,
            new,
        )
    &&& r is Err ==> new == old
}

/// What `offer` does: a registered user whose inventory covers `cards`
/// moves them into a new open offer with no bid, under a fresh identifier.
pub open spec fn offer_post(
    old: EscalateView,
    sender: Seq<char>,
    cards: Seq<Card>,
    price: int,
    r: Result<Offer, EscalateError>,
    new: EscalateView,
) -> bool {
    &&& !registered(old.users, sender) ==> r == Err::<Offer, _>(EscalateError::NotRegistered)
    &&& forall|ks: int|
        user_at(old.users, sender, ks) ==> {
            let u = old.users[ks];
            if !covers(u.cards, cards) {
                exists|j: int|
                    first_missing(u.cards, cards, j) && r == Err::<Offer, _>(
                        EscalateError::InsufficientCards(#[trigger] cards[j]),
                    )
            } else if old.offer_counter >= u64::MAX {
                r == Err::<Offer, _>(EscalateError::Overflow)
            } else {
                &&& r matches Ok(o) && o@ == OfferView {
                    id: o@.id,
                    creator: sender,
                    cards,
                    price,
                    bid: None,
                    bidder: None,
                    resolved: false,
                }
                &&& new.users == old.users.update(ks, with_cards(u, new.users[ks].cards))
                &&& new.users[ks].cards.to_multiset() == u.cards.to_multiset().sub(
                    cards.to_multiset(),
                )
                &&& new.offers == old.offers.push(r->Ok_0@)
                &&& new.offer_counter == old.offer_counter + 1
                &&& new.hands == old.hands
                &&& new.hand_counter == old.hand_counter
            }
        }
    &&& r is Err ==> new == old
}

/// What `withdraw_bid` does: only the current bidder of an open offer may
/// take the bid back; the amount returns to that bidder's balance.
pub open spec fn withdraw_post(
    old: EscalateView,
    sender: Seq<char>,
    id: Seq<char>,
    r: Result<(), EscalateError>,
    new: EscalateView,
) -> bool {
    &&& !has_offer(old.offers, id) ==> r == Err::<(), _>(EscalateError::NotFound)
    &&& forall|k: int|
        offer_at(old.offers, id, k) ==> {
            let o = old.offers[k];
            if o.bidder != Some(sender) {
                r == Err::<(), _>(EscalateError::Unauthorized)
            } else if o.resolved {
                r == Err::<(), _>(EscalateError::AlreadyResolved)
            } else {
                forall|ks: int|
                    user_at(old.users, sender, ks) ==> {
                        let u = old.users[ks];
                        if !fits_i64(u.balance + o.bid->0) {
                            r == Err::<(), _>(EscalateError::Overflow)
                        } else {
                            &&& r == Ok::<(), EscalateError>(())
                            &&& new == EscalateView {
                                users: old.users.update(ks, with_balance(u, u.balance + o.bid->0)),
                                offers: old.offers.update(
                                    k,
                                    OfferView { bid: None, bidder: None, ..o },
                                ),
                                ..old
                            }
                        }
                    }
            }
        }
    &&& r is Err ==> new == old
}

/// What `resolve` does: only the creator may settle an offer; settling a
/// resolved offer changes nothing; otherwise the bid goes to the creator and
/// the cards to the bidder, or the cards back to the creator when there is
/// no bid.
pub open spec fn resolve_post(
    old: EscalateView,
    sender: Seq<char>,
    id: Seq<char>,
    r: Result<(), EscalateError>,
    new: EscalateView,
) -> bool {
    &&& !has_offer(old.offers, id) ==> r == Err::<(), _>(EscalateError::NotFound)
    &&& forall|k: int|
        offer_at(old.offers, id, k) ==> {
            let o = old.offers[k];
            let closed = OfferView { resolved: true, ..o };
            if o.creator != sender {
                r == Err::<(), _>(EscalateError::Unauthorized)
            } else if o.resolved {
                r == Ok::<(), EscalateError>(()) && new == old
            } else if o.bid is None {
                forall|kc: int|
                    user_at(old.users, sender, kc) ==> {
                        &&& r == Ok::<(), EscalateError>(())
                        &&& new == EscalateView {
                            users: old.users.update(
                                kc,
                                with_cards(old.users[kc], old.users[kc].cards + o.cards),
                            ),
                            offers: old.offers.update(k, closed),
                            ..old
                        }
                    }
            } else {
                forall|kc: int, kb: int|
                    user_at(old.users, sender, kc) && user_at(old.users, o.bidder->0, kb) ==> {
                        let c = old.users[kc];
                        if !fits_i64(c.balance + o.bid->0) {
                            r == Err::<(), _>(EscalateError::Overflow)
                        } else {
                            &&& r == Ok::<(), EscalateError>(())
                            &&& new == EscalateView {
                                users: old.users.update(
                                    kb,
                                    with_cards(old.users[kb], old.users[kb].cards + o.cards),
                                ).update(kc, with_balance(c, c.balance + o.bid->0)),
                                offers: old.offers.update(k, closed),
                                ..old
                            }
                        }
                    }
            }
        }
    &&& r is Err ==> new == old
}

impl EscalateContractState {
    /// Opens an auction of `cards`, taken from the caller's inventory, at
    /// the initial price `amount`.
    pub fn offer(&mut self, sender: String, cards: Vec<Card>, amount: i64) -> (r: Result<
        Offer,
        EscalateError,
    >)
        requires
            old(self).wf(),
        ensures
            final(self).wf(),
            offer_post(old(self)@, sender@, cards@, amount as int, r, final(self)@),
            total_funds(final(self)@) == total_funds(old(self)@),
            total_cards(final(self)@) == total_cards(old(self)@),
    {
        let ks = match self.find_user(&sender) {
            Some(k) => k,
            None => return Err(EscalateError::NotRegistered),
        };
        let ghost old_v = self@;
        let mut user = copy_user(&self.users[ks]);
        match remove_cards_from_inventory(&mut user.cards, &cards) {
            Ok(()) => {},
            Err(e) => return Err(e),
        }
        if self.offer_counter == u64::MAX {
            return Err(EscalateError::Overflow);
        }
        self.offer_counter = self.offer_counter + 1;
        let offer_id = self.offer_counter.to_string();
        let offer = Offer::new(offer_id, sender, copy_cards(&cards), amount);
        let result = copy_offer(&offer);
        proof {
            lemma_users_update(old_v.users, ks as int, user@);
            lemma_offers_push(old_v.offers, offer@);
        }
        self.users.set(ks, user);
        self.offers.push(offer);
        assert(self@.users =~= old_v.users.update(ks as int, user@));
        assert(self@.offers =~= old_v.offers.push(offer@));
        proof {
            assert(same_ids(old_v.users, self@.users));
            lemma_same_ids_registered(old_v.users, self@.users);
            assert(user_at(self@.users, sender@, ks as int));
            assert(offer_ok(self@.users, offer@));
            lemma_valid_frame(old_v, self@);
        }
        Ok(result)
    }

    /// Takes back the caller's standing bid on an open offer.
    pub fn withdraw_bid(&mut self, sender: String, offer_id: String) -> (r: Result<
        (),
        EscalateError,
    >)
        requires
            old(self).wf(),
        ensures
            final(self).wf(),
            withdraw_post(old(self)@, sender@, offer_id@, r, final(self)@),
            total_funds(final(self)@) == total_funds(old(self)@),
            total_cards(final(self)@) == total_cards(old(self)@),
    {
        let k = match self.find_offer(&offer_id) {
            Some(k) => k,
            None => return Err(EscalateError::NotFound),
        };
        let ghost old_v = self@;
        assert(self@.offers[k as int] == self.offers@[k as int]@);
        let is_bidder = match &self.offers[k].current_bidder_id {
            Some(b) => *b == sender,
            None => false,
        };
        if !is_bidder {
            return Err(EscalateError::Unauthorized);
        }
        if self.offers[k].is_resolved {
            return Err(EscalateError::AlreadyResolved);
        }
        assert(offer_ok(old_v.users, old_v.offers[k as int]));
        let amount: i64 = match self.offers[k].current_bid {
            Some(b) => b,
            None => 0,
        };
        let ks = match self.find_user(&sender) {
            Some(k) => k,
            None => {
                assert(false);
                return Err(EscalateError::NotRegistered);
            },
        };
        if self.users[ks].balance > i64::MAX - amount {
            return Err(EscalateError::Overflow);
        }
        let mut user = copy_user(&self.users[ks]);
        user.balance = user.balance + amount;
        let mut cleared = copy_offer(&self.offers[k]);
        cleared.current_bid = None;
        cleared.current_bidder_id = None;
        proof {
            lemma_users_update(old_v.users, ks as int, user@);
            lemma_offers_update(old_v.offers, k as int, cleared@);
        }
        self.users.set(ks, user);
        self.offers.set(k, cleared);
        assert(self@.users =~= old_v.users.update(ks as int, user@));
        assert(self@.offers =~= old_v.offers.update(k as int, cleared@));
        proof {
            assert(same_ids(old_v.users, self@.users));
            lemma_same_ids_registered(old_v.users, self@.users);
            assert(offer_ok(self@.users, cleared@));
            lemma_valid_frame(old_v, self@);
        }
        Ok(())
    }

    /// Settles an offer: the creator receives the bid and the bidder the
    /// cards, or the cards return to the creator when nobody bid.
    pub fn resolve(&mut self, sender: String, offer_id: String) -> (r: Result<(), EscalateError>)
        requires
            old(self).wf(),
        ensures
            final(self).wf(),
            resolve_post(old(self)@, sender@, offer_id@, r, final(self)@),
            total_funds(final(self)@) == total_funds(old(self)@),
            total_cards(final(self)@) == total_cards(old(self)@),
    {
        let k = match self.find_offer(&offer_id) {
            Some(k) => k,
            None => return Err(EscalateError::NotFound),
        };
        let ghost old_v = self@;
        assert(self@.offers[k as int] == self.offers@[k as int]@);
        if self.offers[k].creator_id != sender {
            return Err(EscalateError::Unauthorized);
        }
        if self.offers[k].is_resolved {
            return Ok(());
        }
        assert(offer_ok(old_v.users, old_v.offers[k as int]));
        let kc = match self.find_user(&sender) {
            Some(k) => k,
            None => {
                assert(false);
                return Err(EscalateError::NotRegistered);
            },
        };
        let mut closed = copy_offer(&self.offers[k]);
        closed.is_resolved = true;
        match (self.offers[k].current_bid, &self.offers[k].current_bidder_id) {
            (Some(amount), Some(bidder_id)) => {
                let kb = match self.find_user(bidder_id) {
                    Some(k) => k,
                    None => {
                        assert(false);
                        return Err(EscalateError::NotRegistered);
                    },
                };
                if self.users[kc].balance > i64::MAX - amount {
                    return Err(EscalateError::Overflow);
                }
                let mut bidder = copy_user(&self.users[kb]);
                add_to_inventory(&mut bidder.cards, &self.offers[k].cards);
                let mut creator = copy_user(&self.users[kc]);
                creator.balance = creator.balance + amount;
                proof {
                    lemma_users_update(old_v.users, kb as int, bidder@);
                    lemma_users_update(old_v.users.update(kb as int, bidder@), kc as int, creator@);
                    lemma_offers_update(old_v.offers, k as int, closed@);
                }
                self.users.set(kb, bidder);
                self.users.set(kc, creator);
                self.offers.set(k, closed);
                assert(self@.users =~= old_v.users.update(kb as int, bidder@).update(
                    kc as int,
                    creator@,
                ));
            },
            _ => {
                let mut creator = copy_user(&self.users[kc]);
                add_to_inventory(&mut creator.cards, &self.offers[k].cards);
                proof {
                    lemma_users_update(old_v.users, kc as int, creator@);
                    lemma_offers_update(old_v.offers, k as int, closed@);
                }
                self.users.set(kc, creator);
                self.offers.set(k, closed);
                assert(self@.users =~= old_v.users.update(kc as int, creator@));
            },
        }
        assert(self@.offers =~= old_v.offers.update(k as int, OfferView { resolved: true, ..old_v.offers[k as int] }));
        proof {
            assert(same_ids(old_v.users, self@.users));
            lemma_same_ids_registered(old_v.users, self@.users);
            lemma_valid_frame(old_v, self@);
        }
        Ok(())
    }

    /// Places or raises a bid on an open offer.
    pub fn bid(&mut self, sender: String, offer_id: String, bid_amout: i64) -> (r: Result<
        (),
        EscalateError,
    >)
        requires
            old(self).wf(),
        ensures
            final(self).wf(),
            bid_post(old(self)@, sender@, offer_id@, bid_amout as int, r, final(self)@),
            total_funds(final(self)@) == total_funds(old(self)@),
            total_cards(final(self)@) == total_cards(old(self)@),
    {
        let ks = match self.find_user(&sender) {
            Some(k) => k,
            None => return Err(EscalateError::NotRegistered),
        };
        let k = match self.find_offer(&offer_id) {
            Some(k) => k,
            None => return Err(EscalateError::NotFound),
        };
        let ghost old_v = self@;
        assert(self@.offers[k as int] == self.offers@[k as int]@);
        if self.offers[k].is_resolved {
            return Err(EscalateError::AlreadyResolved);
        }
        if self.offers[k].creator_id == sender {
            return Err(EscalateError::Unauthorized);
        }
        let min: i64 = match self.offers[k].current_bid {
            Some(b) => b,
            None => self.offers[k].initial_price,
        };
        if bid_amout <= min || bid_amout <= 0 {
            return Err(EscalateError::InvalidAmount);
        }
        let mut bidder = copy_user(&self.users[ks]);
        let mut refund: Option<(usize, i64)> = None;
        match (self.offers[k].current_bid, &self.offers[k].current_bidder_id) {
            (Some(prev), Some(p)) => {
                if *p == sender {
                    if bidder.balance > i64::MAX - prev {
                        return Err(EscalateError::Overflow);
                    }
                    bidder.balance = bidder.balance + prev;
                } else {
                    match self.find_user(p) {
                        Some(kp) => {
                            if self.users[kp].balance > i64::MAX - prev {
                                return Err(EscalateError::Overflow);
                            }
                            refund = Some((kp, self.users[kp].balance + prev));
                        },
                        None => {},
                    }
                }
            },
            _ => {},
        }
        if bidder.balance < bid_amout {
            return Err(EscalateError::InsufficientBalance);
        }
        bidder.balance = bidder.balance - bid_amout;
        let mut placed = copy_offer(&self.offers[k]);
        placed.current_bid = Some(bid_amout);
        placed.current_bidder_id = Some(sender.clone());
        let ghost mid = self@.users;
        match refund {
            Some((kp, b)) => {
                let mut prev_user = copy_user(&self.users[kp]);
                prev_user.balance = b;
                self.users.set(kp, prev_user);
            },
            None => {},
        }
        proof {
            lemma_offers_update(old_v.offers, k as int, placed@);
        }
        self.users.set(ks, bidder);
        self.offers.set(k, placed);
        assert(self@.offers =~= old_v.offers.update(k as int, placed@));
        proof {
            assert(same_ids(old_v.users, self@.users));
            lemma_same_ids_registered(old_v.users, self@.users);
            assert(user_at(self@.users, sender@, ks as int));
            assert(offer_ok(old_v.users, old_v.offers[k as int]));
            assert(offer_ok(self@.users, self@.offers[k as int]));
            lemma_valid_frame(old_v, self@);
            match refund {
                Some((kp, b)) => {
                    let u1 = old_v.users.update(kp as int, self@.users[kp as int]);
                    assert(self@.users =~= u1.update(ks as int, self@.users[ks as int]));
                    lemma_users_update(old_v.users, kp as int, self@.users[kp as int]);
                    lemma_users_update(u1, ks as int, self@.users[ks as int]);
                },
                None => {
                    assert(self@.users =~= old_v.users.update(ks as int, self@.users[ks as int]));
                    lemma_users_update(old_v.users, ks as int, self@.users[ks as int]);
                },
            }
        }
        Ok(())
    }
}

} // verus!

verus! {

/// Settling an offer twice ends in the same state, with the same result, as
/// settling it once.
pub proof fn lemma_resolve_idempotent(
    s0: EscalateView,
    s1: EscalateView,
    s2: EscalateView,
    sender: Seq<char>,
    id: Seq<char>,
    r1: Result<(), EscalateError>,
    r2: Result<(), EscalateError>,
)
    requires
        valid(s0),
        resolve_post(s0, sender, id, r1, s1),
        resolve_post(s1, sender, id, r2, s2),
    ensures
        s2 == s1,
        r2 == r1,
{
    if has_offer(s0.offers, id) {
        let k0 = choose|k: int| 0 <= k < s0.offers.len() && s0.offers[k].id == id;
        let k = first_offer(s0.offers, id, k0);
        assert(offer_at(s0.offers, id, k));
        let o = s0.offers[k];
        assert(offer_ok(s0.users, o));
        if o.creator == sender && !o.resolved {
            let kc = choose|kc: int| user_at(s0.users, sender, kc);
            if o.bid is Some {
                let kb = choose|kb: int| user_at(s0.users, o.bidder->0, kb);
                assert(user_at(s0.users, o.bidder->0, kb));
            }
            if r1 is Ok {
                assert(s1.offers[k] == OfferView { resolved: true, ..o });
            }
        }
        assert(offer_at(s1.offers, id, k));
        if r1 is Err && o.creator == sender && !o.resolved && o.bid is Some {
            let kc = choose|kc: int| user_at(s0.users, sender, kc);
            let kb = choose|kb: int| user_at(s0.users, o.bidder->0, kb);
            assert(user_at(s1.users, sender, kc));
            assert(user_at(s1.users, o.bidder->0, kb));
        }
    }
}

/// The first offer named `id`, at or before `k0`.
pub proof fn first_offer(offers: Seq<OfferView>, id: Seq<char>, k0: int) -> (k: int)
    requires
        0 <= k0 < offers.len(),
        offers[k0].id == id,
    ensures
        offer_at(offers, id, k),
    decreases k0,
{
    if exists|j: int| 0 <= j < k0 && offers[j].id == id {
        let j = choose|j: int| 0 <= j < k0 && offers[j].id == id;
        first_offer(offers, id, j)
    } else {
        k0
    }
}

} // verus!

verus! {

/// One bid, accepted or refused, leaves the money in the system unchanged:
/// what the bidder pays is what the offer holds, less the refund.
pub proof fn lemma_bid_keeps_funds(
    old: EscalateView,
    sender: Seq<char>,
    id: Seq<char>,
    amount: int,
    r: Result<(), EscalateError>,
    new: EscalateView,
)
    requires
        valid(old),
        bid_post(old, sender, id, amount, r, new),
    ensures
        total_funds(new) == total_funds(old),
{
    if r is Ok {
        let ks = choose|ks: int| user_at(old.users, sender, ks);
        let k0 = choose|k: int| 0 <= k < old.offers.len() && old.offers[k].id == id;
        let k = first_offer(old.offers, id, k0);
        let o = old.offers[k];
        let u = old.users[ks];
        assert(user_at(old.users, sender, ks));
        assert(bid_step(old, sender, ks, k, amount, r, new));
        assert(offer_ok(old.users, o));
        let placed = OfferView { bid: Some(amount), bidder: Some(sender), ..o };
        lemma_offers_update(old.offers, k, placed);
        if o.bidder is None {
            lemma_users_update(old.users, ks, with_balance(u, u.balance - amount));
        } else if o.bidder->0 == sender {
            lemma_users_update(old.users, ks, with_balance(u, u.balance + o.bid->0 - amount));
        } else {
            let kp = choose|kp: int| user_at(old.users, o.bidder->0, kp);
            assert(user_at(old.users, o.bidder->0, kp));
            let p = old.users[kp];
            let u1 = old.users.update(kp, with_balance(p, p.balance + o.bid->0));
            lemma_users_update(old.users, kp, with_balance(p, p.balance + o.bid->0));
            lemma_users_update(u1, ks, with_balance(u, u.balance - amount));
        }
    }
}

/// After any sequence of bids on one offer, the bidders' balances and the
/// standing bid together hold exactly the money they held before.
pub proof fn lemma_bids_keep_funds(
    states: Seq<EscalateView>,
    senders: Seq<Seq<char>>,
    id: Seq<char>,
    amounts: Seq<int>,
    results: Seq<Result<(), EscalateError>>,
)
    requires
        states.len() == senders.len() + 1,
        amounts.len() == senders.len(),
        results.len() == senders.len(),
        forall|i: int| 0 <= i < states.len() ==> valid(#[trigger] states[i]),
        forall|i: int|
            0 <= i < senders.len() ==> bid_post(
                #[trigger] states[i],
                senders[i],
                id,
                amounts[i],
                results[i],
                states[i + 1],
            ),
    ensures
        total_funds(states.last()) == total_funds(states[0]),
    decreases senders.len(),
{
    let n = senders.len() as int;
    if n > 0 {
        lemma_bids_keep_funds(
            states.drop_last(),
            senders.drop_last(),
            id,
            amounts.drop_last(),
            results.drop_last(),
        );
        assert(states.drop_last().last() == states[n - 1]);
        assert(bid_post(states[n - 1], senders[n - 1], id, amounts[n - 1], results[n - 1], states[n]));
        lemma_bid_keeps_funds(states[n - 1], senders[n - 1], id, amounts[n - 1], results[n - 1], states[n]);
    }
}

} // verus!
