use vstd::prelude::*;
use crate::elements::{drawn, get_random_cards, Card, Offer, User, UserView};
use crate::contract::{
    copy_offer, copy_user, lemma_same_ids_registered, lemma_users_push, lemma_users_update,
    lemma_valid_frame, offer_ok, registered, same_ids, total_cards, total_funds, user_at, valid,
    with_balance, EscalateContractState, EscalateView,
};
use crate::ledger::{add_to_inventory, copy_cards, EscalateError};
use crate::user::INITIAL_BALANCE;

verus! {

/// Price of one card: one unit.
pub const CARD_PRICE: i64 = 10;

/// What `register_user` does: updates the biography of a registered caller,
/// or creates a record with the initial balance and no cards.
pub open spec fn register_post(
    old: EscalateView,
    sender: Seq<char>,
    bio: Seq<char>,
    r: Result<User, EscalateError>,
    new: EscalateView,
) -> bool {
    &&& r matches Ok(u) && (forall|ks: int|
        user_at(old.users, sender, ks) ==> u@ == UserView { bio, ..old.users[ks] } && new == (
        EscalateView { users: old.users.update(ks, u@), ..old }))
    &&& !registered(old.users, sender) ==> (r matches Ok(u) && u@ == (UserView {
        id: sender,
        bio,
        balance: INITIAL_BALANCE as int,
        cards: Seq::empty(),
    }) && new == (EscalateView { users: old.users.push(u@), ..old }))
}

/// What `deposit` does: refuses a non-positive amount; otherwise adds it to
/// the caller's balance, creating the caller's record first if there is none.
pub open spec fn deposit_post(
    old: EscalateView,
    sender: Seq<char>,
    amount: int,
    r: Result<(), EscalateError>,
    new: EscalateView,
) -> bool {
    &&& amount <= 0 ==> r == Err::<(), _>(EscalateError::InvalidAmount)
    &&& amount > 0 ==> forall|ks: int|
        user_at(old.users, sender, ks) ==> if old.users[ks].balance + amount > i64::MAX {
            r == Err::<(), _>(EscalateError::Overflow)
        } else {
            r == Ok::<(), EscalateError>(()) && new == (EscalateView {
                users: old.users.update(
                    ks,
                    with_balance(old.users[ks], old.users[ks].balance + amount),
                ),
                ..old
            })
        }
    &&& amount > 0 && !registered(old.users, sender) ==> if INITIAL_BALANCE + amount > i64::MAX {
        r == Err::<(), _>(EscalateError::Overflow)
    } else {
        r == Ok::<(), EscalateError>(()) && new == (EscalateView {
            users: old.users.push(
                UserView {
                    id: sender,
                    bio: Seq::empty(),
                    balance: INITIAL_BALANCE + amount,
                    cards: Seq::empty(),
                },
            ),
            ..old
        })
    }
    &&& r is Err ==> new == old
}

/// What `buy_cards` does: spends the whole units of `amount` on as many
/// cards drawn from `seed`; an amount under one unit buys nothing.
pub open spec fn buy_post(
    old: EscalateView,
    sender: Seq<char>,
    seed: nat,
    amount: int,
    r: Result<Vec<Card>, EscalateError>,
    new: EscalateView,
) -> bool {
    &&& !registered(old.users, sender) ==> r == Err::<Vec<Card>, _>(EscalateError::NotRegistered)
    &&& forall|ks: int|
        user_at(old.users, sender, ks) ==> {
            let u = old.users[ks];
            let units = amount / (CARD_PRICE as int);
            if units <= 0 {
                (r matches Ok(c) && c@.len() == 0 && new == old)
            } else if u.balance < units * CARD_PRICE {
                r == Err::<Vec<Card>, _>(EscalateError::InsufficientBalance)
            } else if units > u32::MAX {
                r == Err::<Vec<Card>, _>(EscalateError::InvalidAmount)
            } else {
                &&& r matches Ok(c) && c@ == drawn(seed, units as nat)
                &&& new == (EscalateView {
                    users: old.users.update(
                        ks,
                        UserView {
                            balance: u.balance - units * CARD_PRICE,
                            cards: u.cards + drawn(seed, units as nat),
                            ..u
                        },
                    ),
                    ..old
                })
            }
        }
    &&& r is Err ==> new == old
}

impl EscalateContractState {
    /// An engine with no users, hands or offers.
    pub fn new() -> (r: Result<EscalateContractState, EscalateError>)
        ensures
            r matches Ok(s) && (s.wf() && s@.users.len() == 0 && s@.hands.len() == 0
                && s@.offers.len() == 0 && s@.hand_counter == 0 && s@.offer_counter == 0),
    {
        let s = EscalateContractState {
            users: Vec::new(),
            hands: Vec::new(),
            offers: Vec::new(),
            hand_counter: 0,
            offer_counter: 0,
        };
        assert(s@.users =~= Seq::<UserView>::empty());
        Ok(s)
    }

    /// Creates the caller's record, or updates its biography.
    pub fn register_user(&mut self, sender: String, bio: String) -> (r: Result<User, EscalateError>)
        requires
            old(self).wf(),
        ensures
            final(self).wf(),
            register_post(old(self)@, sender@, bio@, r, final(self)@),
            total_cards(final(self)@) == total_cards(old(self)@),
    {
        let ghost old_v = self@;
        match self.find_user(&sender) {
            Some(ks) => {
                let mut user = copy_user(&self.users[ks]);
                user.bio = bio;
                let result = copy_user(&user);
                proof {
                    lemma_users_update(old_v.users, ks as int, user@);
                }
                self.users.set(ks, user);
                assert(self@.users =~= old_v.users.update(ks as int, result@));
                proof {
                    assert(same_ids(old_v.users, self@.users));
                    lemma_valid_frame(old_v, self@);
                }
                Ok(result)
            },
            None => {
                let user = User::new(sender, bio);
                let result = copy_user(&user);
                proof {
                    lemma_users_push(old_v.users, user@);
                }
                self.users.push(user);
                assert(self@.users =~= old_v.users.push(result@));
                proof {
                    lemma_registered_push(old_v, self@);
                }
                Ok(result)
            },
        }
    }

    /// Adds a positive amount to the caller's balance, registering the
    /// caller if needed.
    pub fn deposit(&mut self, sender: String, amount: i64) -> (r: Result<(), EscalateError>)
        requires
            old(self).wf(),
        ensures
            final(self).wf(),
            deposit_post(old(self)@, sender@, amount as int, r, final(self)@),
            total_cards(final(self)@) == total_cards(old(self)@),
    {
        if amount <= 0 {
            return Err(EscalateError::InvalidAmount);
        }
        let ghost old_v = self@;
        match self.find_user(&sender) {
            Some(ks) => {
                if self.users[ks].balance > i64::MAX - amount {
                    return Err(EscalateError::Overflow);
                }
                let mut user = copy_user(&self.users[ks]);
                user.deposit(amount);
                proof {
                    lemma_users_update(old_v.users, ks as int, user@);
                }
                self.users.set(ks, user);
                assert(self@.users =~= old_v.users.update(ks as int, self@.users[ks as int]));
                proof {
                    assert(same_ids(old_v.users, self@.users));
                    lemma_valid_frame(old_v, self@);
                }
                Ok(())
            },
            None => {
                if amount > i64::MAX - INITIAL_BALANCE {
                    return Err(EscalateError::Overflow);
                }
                let mut user = User::new(sender, String::new());
                user.deposit(amount);
                proof {
                    lemma_users_push(old_v.users, user@);
                }
                self.users.push(user);
                assert(self@.users =~= old_v.users.push(self@.users.last()));
                proof {
                    lemma_registered_push(old_v, self@);
                }
                Ok(())
            },
        }
    }

    /// Spends the whole units of `amount` from the caller's balance on as
    /// many new cards, drawn from `seed`.
    pub fn buy_cards(&mut self, sender: String, seed: u64, amount: i64) -> (r: Result<
        Vec<Card>,
        EscalateError,
    >)
        requires
            old(self).wf(),
        ensures
            final(self).wf(),
            buy_post(old(self)@, sender@, seed as nat, amount as int, r, final(self)@),
            r matches Ok(c) ==> total_cards(final(self)@) == total_cards(old(self)@) + c@.len(),
    {
        let ks = match self.find_user(&sender) {
            Some(k) => k,
            None => return Err(EscalateError::NotRegistered),
        };
        let ghost old_v = self@;
        let units: i64 = amount / CARD_PRICE;
        if units <= 0 {
            return Ok(Vec::new());
        }
        let spend: i64 = units * CARD_PRICE;
        if self.users[ks].balance < spend {
            return Err(EscalateError::InsufficientBalance);
        }
        if units > 4294967295 {
            return Err(EscalateError::InvalidAmount);
        }
        let new_cards = get_random_cards(seed, units as u32);
        let mut user = copy_user(&self.users[ks]);
        user.balance = user.balance - spend;
        add_to_inventory(&mut user.cards, &new_cards);
        proof {
            lemma_users_update(old_v.users, ks as int, user@);
        }
        self.users.set(ks, user);
        assert(self@.users =~= old_v.users.update(ks as int, self@.users[ks as int]));
        proof {
            assert(same_ids(old_v.users, self@.users));
            lemma_valid_frame(old_v, self@);
        }
        Ok(new_cards)
    }

    /// Every user record, in order of registration.
    pub fn get_users(&self) -> (r: Vec<User>)
        ensures
            r@.map_values(|u: User| u@) == self@.users,
    {
        let mut r: Vec<User> = Vec::new();
        let mut k: usize = 0;
        while k < self.users.len()
            invariant
                0 <= k <= self.users@.len(),
                r@.len() == k,
                forall|j: int| 0 <= j < k ==> (#[trigger] r@[j])@ == self@.users[j],
            decreases self.users@.len() - k,
        {
            r.push(copy_user(&self.users[k]));
            k = k + 1;
        }
        assert(r@.map_values(|u: User| u@) =~= self@.users);
        r
    }

    /// The record of `id`, if registered.
    pub fn get_user(&self, id: String) -> (r: Option<User>)
        ensures
            r is None <==> !registered(self@.users, id@),
            r matches Some(u) ==> exists|k: int| user_at(self@.users, id@, k) && u@ == self@.users[k],
    {
        match self.find_user(&id) {
            Some(k) => Some(copy_user(&self.users[k])),
            None => None,
        }
    }

    /// The caller's inventory.
    pub fn get_my_cards(&self, sender: String) -> (r: Result<Vec<Card>, EscalateError>)
        ensures
            r is Err <==> !registered(self@.users, sender@),
            r is Err ==> r == Err::<Vec<Card>, _>(EscalateError::NotRegistered),
            r matches Ok(c) ==> exists|k: int| user_at(self@.users, sender@, k) && c@ == self@.users[k].cards,
    {
        match self.find_user(&sender) {
            Some(k) => Ok(copy_cards(&self.users[k].cards)),
            None => Err(EscalateError::NotRegistered),
        }
    }

    /// Every offer, in order of creation.
    pub fn get_offers(&self) -> (r: Vec<Offer>)
        ensures
            r@.map_values(|o: Offer| o@) == self@.offers,
    {
        let mut r: Vec<Offer> = Vec::new();
        let mut k: usize = 0;
        while k < self.offers.len()
            invariant
                0 <= k <= self.offers@.len(),
                r@.len() == k,
                forall|j: int| 0 <= j < k ==> (#[trigger] r@[j])@ == self@.offers[j],
            decreases self.offers@.len() - k,
        {
            r.push(copy_offer(&self.offers[k]));
            k = k + 1;
        }
        assert(r@.map_values(|o: Offer| o@) =~= self@.offers);
        r
    }
}

/// Adding a record for an unregistered user keeps the invariant.
proof fn lemma_registered_push(old: EscalateView, new: EscalateView)
    requires
        valid(old),
        new.users.len() == old.users.len() + 1,
        forall|i: int| 0 <= i < old.users.len() ==> #[trigger] new.users[i] == old.users[i],
        !registered(old.users, new.users.last().id),
        new.hands == old.hands,
        new.offers == old.offers,
    ensures
        valid(new),
{
    let n = old.users.len() as int;
    assert forall|id: Seq<char>| registered(old.users, id) implies registered(new.users, id) by {
        let k = choose|k: int| user_at(old.users, id, k);
        assert(user_at(new.users, id, k));
    }
    assert forall|i: int, j: int|
        0 <= i < new.users.len() && 0 <= j < new.users.len() && i != j implies new.users[i].id
            != new.users[j].id by {
        if i == n {
            assert(!user_at(old.users, new.users[n].id, j));
        } else if j == n {
            assert(!user_at(old.users, new.users[n].id, i));
        }
    }
    assert forall|k: int| 0 <= k < new.hands.len() implies crate::contract::hand_ok(
        new.users,
        #[trigger] new.hands[k],
    ) by {
        assert(crate::contract::hand_ok(old.users, old.hands[k]));
    }
    assert forall|k: int| 0 <= k < new.offers.len() implies offer_ok(
        new.users,
        #[trigger] new.offers[k],
    ) by {
        assert(offer_ok(old.users, old.offers[k]));
    }
}

} // verus!
