use vstd::prelude::*;
use crate::elements::{Card, User, UserView};
use crate::ledger::add_to_inventory;

verus! {

/// Balance of a newly registered user: one hundred units.
pub const INITIAL_BALANCE: i64 = 1000;

impl User {
    pub fn new(user_id: String, bio: String) -> (r: User)
        ensures
            r@.id == user_id@,
            r@.bio == bio@,
            r@.balance == INITIAL_BALANCE,
            r@.cards == Seq::<Card>::empty(),
    {
        User { user_id, bio, balance: INITIAL_BALANCE, cards: Vec::new() }
    }

    pub fn deposit(&mut self, amount: i64)
        requires
            i64::MIN <= old(self).balance + amount <= i64::MAX,
        ensures
            final(self)@ == (UserView { balance: old(self)@.balance + amount, ..old(self)@ }),
    {
        self.balance = self.balance + amount;
    }

    pub fn add_cards(&mut self, new_cards: Vec<Card>)
        ensures
            final(self)@ == (UserView { cards: old(self)@.cards + new_cards@, ..old(self)@ }),
    {
        add_to_inventory(&mut self.cards, &new_cards);
    }
}

} // verus!
