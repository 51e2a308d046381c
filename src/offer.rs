use vstd::prelude::*;
use crate::elements::{Card, Offer};

verus! {

impl Offer {
    pub fn new(offer_id: String, creator_id: String, cards: Vec<Card>, amount: i64) -> (r: Offer)
        ensures
            r@.id == offer_id@,
            r@.creator == creator_id@,
            r@.cards == cards@,
            r@.price == amount,
            r@.bid is None,
            r@.bidder is None,
            !r@.resolved,
    {
        Offer {
            offer_id,
            creator_id,
            cards,
            initial_price: amount,
            current_bid: None,
            current_bidder_id: None,
            is_resolved: false,
        }
    }
}

} // verus!
