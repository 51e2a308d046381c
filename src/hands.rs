use vstd::prelude::*;
use crate::elements::{bluff_spec, equivalent_spec, is_bluff, Card, Hand, HandView, Stake, StakeView, UserView};
use crate::contract::{
    copy_hand, copy_user, fits_i64, has_hand, hand_at, hand_escrow, hand_ok, lemma_hands_update,
    lemma_same_ids_registered, lemma_hands_push, lemma_users_update, with_cards, lemma_valid_frame, registered, same_ids, staked_count, total_cards,
    total_funds, user_at, valid, with_balance, EscalateContractState, EscalateView,
};
use crate::ledger::{copy_cards, covers, first_missing, remove_cards_from_inventory, EscalateError};

verus! {

/// Reward for a staked card equivalent to the claim: one unit.
pub const EQUIVALENT_REWARD: i64 = 10;

/// Reward for a staked card that is not equivalent to the claim: 1.2 units.
pub const BLUFF_REWARD: i64 = 12;

/// Money per card of the last stake that the checker wins or loses: one unit.
pub const CHECK_UNIT: i64 = 10;

/// The largest last stake whose value, `CHECK_UNIT` per card, fits in `i64`.
pub const MAX_CHECKED_CARDS: u64 = 922337203685477580;

pub open spec fn card_reward(c: Card, claim: Card) -> int {
    if equivalent_spec(c, claim) {
        EQUIVALENT_REWARD as int
    } else {
        BLUFF_REWARD as int
    }
}

/// Reward for one stake: the per-card rewards, summed.
pub open spec fn stake_reward(cards: Seq<Card>, claim: Card) -> int
    decreases cards.len(),
{
    if cards.len() == 0 {
        0
    } else {
        stake_reward(cards.drop_last(), claim) + card_reward(cards.last(), claim)
    }
}

/// What the user `id` is credited for the first `upto` stakes.
pub open spec fn credit(stakes: Seq<StakeView>, upto: int, id: Seq<char>, claim: Card) -> int
    decreases upto,
{
    if upto <= 0 {
        0
    } else {
        credit(stakes, upto - 1, id, claim) + if stakes[upto - 1].user_id == id {
            stake_reward(stakes[upto - 1].cards, claim)
        } else {
            0
        }
    }
}

/// How many stakes are rewarded: all, or all but the last on a bluff.
pub open spec fn rewarded_count(h: HandView) -> int {
    if bluff_spec(h) {
        h.stakes.len() - 1
    } else {
        h.stakes.len() as int
    }
}

/// What the checker wins on a bluff, or loses otherwise.
pub open spec fn check_stake(h: HandView) -> int {
    CHECK_UNIT * h.stakes.last().cards.len()
}

/// The checker's balance once won or lost, before rewards.
pub open spec fn checker_adjusted(u: UserView, h: HandView) -> int {
    if bluff_spec(h) {
        u.balance + check_stake(h)
    } else {
        u.balance - check_stake(h)
    }
}

/// A user's balance after a check of `h` by `checker`.
pub open spec fn settled(u: UserView, h: HandView, checker: Seq<char>) -> int {
    (if u.id == checker {
        checker_adjusted(u, h)
    } else {
        u.balance
    }) + credit(h.stakes, rewarded_count(h), u.id, h.claim)
}

/// The check of `h` by the user at `kc` leaves a balance or an amount out
/// of range.
pub open spec fn check_overflows(users: Seq<UserView>, h: HandView, kc: int) -> bool {
    ||| check_stake(h) > i64::MAX
    ||| !fits_i64(checker_adjusted(users[kc], h))
    ||| exists|k: int| 0 <= k < users.len() && !fits_i64(#[trigger] settled(users[k], h, users[kc].id))
}

/// What `check` does: a registered user resolves an open hand; on a bluff
/// the checker wins one unit per card of the last stake and every staker but
/// the last is rewarded; otherwise the checker loses as much and every
/// staker is rewarded. Rewards are per card, per stake.
pub open spec fn check_post(
    old: EscalateView,
    sender: Seq<char>,
    id: Seq<char>,
    r: Result<bool, EscalateError>,
    new: EscalateView,
) -> bool {
    &&& !registered(old.users, sender) ==> r == Err::<bool, _>(EscalateError::NotRegistered)
    &&& registered(old.users, sender) && !has_hand(old.hands, id) ==> r == Err::<bool, _>(
        EscalateError::NotFound,
    )
    &&& forall|kc: int, kh: int|
        user_at(old.users, sender, kc) && hand_at(old.hands, id, kh) ==> {
            let h = old.hands[kh];
            if h.resolved {
                r == Err::<bool, _>(EscalateError::AlreadyResolved)
            } else if check_overflows(old.users, h, kc) {
                r == Err::<bool, _>(EscalateError::Overflow)
            } else {
                &&& r == Ok::<bool, EscalateError>(bluff_spec(h))
                &&& new == EscalateView {
                    users: Seq::new(
                        old.users.len(),
                        |k: int| with_balance(old.users[k], settled(old.users[k], h, sender)),
                    ),
                    hands: old.hands.update(kh, HandView { resolved: true, ..h }),
                    ..old
                }
                &&& total_cards(new) == total_cards(old) - staked_count(h.stakes)
            }
        }
    &&& r is Err ==> new == old
}

/// What `start_hand` does: a registered user whose inventory covers `cards`
/// opens a hand claiming `claim`, with those cards as its one stake, under a
/// fresh identifier.
pub open spec fn start_hand_post(
    old: EscalateView,
    sender: Seq<char>,
    claim: Card,
    cards: Seq<Card>,
    r: Result<Hand, EscalateError>,
    new: EscalateView,
) -> bool {
    &&& !registered(old.users, sender) ==> r == Err::<Hand, _>(EscalateError::NotRegistered)
    &&& forall|ks: int|
        user_at(old.users, sender, ks) ==> {
            let u = old.users[ks];
            if !covers(u.cards, cards) {
                exists|j: int|
                    first_missing(u.cards, cards, j) && r == Err::<Hand, _>(
                        EscalateError::InsufficientCards(#[trigger] cards[j]),
                    )
            } else if old.hand_counter >= u64::MAX {
                r == Err::<Hand, _>(EscalateError::Overflow)
            } else {
                &&& r matches Ok(hd) && hd@ == HandView {
                    id: hd@.id,
                    creator: sender,
                    claim,
                    resolved: false,
                    stakes: seq![StakeView { user_id: sender, cards }],
                }
                &&& new.users == old.users.update(ks, with_cards(u, new.users[ks].cards))
                &&& new.users[ks].cards.to_multiset() == u.cards.to_multiset().sub(
                    cards.to_multiset(),
                )
                &&& new.hands == old.hands.push(r->Ok_0@)
                &&& new.hand_counter == old.hand_counter + 1
                &&& new.offers == old.offers
                &&& new.offer_counter == old.offer_counter
            }
        }
    &&& r is Err ==> new == old
}

/// What `stake` does: a registered user whose inventory covers `cards`
/// appends a stake of them to an open hand.
pub open spec fn stake_post(
    old: EscalateView,
    sender: Seq<char>,
    id: Seq<char>,
    cards: Seq<Card>,
    r: Result<Hand, EscalateError>,
    new: EscalateView,
) -> bool {
    &&& !registered(old.users, sender) ==> r == Err::<Hand, _>(EscalateError::NotRegistered)
    &&& registered(old.users, sender) && !has_hand(old.hands, id) ==> r == Err::<Hand, _>(
        EscalateError::NotFound,
    )
    &&& forall|ks: int, kh: int|
        user_at(old.users, sender, ks) && hand_at(old.hands, id, kh) ==> {
            let u = old.users[ks];
            let h = old.hands[kh];
            if h.resolved {
                r == Err::<Hand, _>(EscalateError::AlreadyResolved)
            } else if !covers(u.cards, cards) {
                exists|j: int|
                    first_missing(u.cards, cards, j) && r == Err::<Hand, _>(
                        EscalateError::InsufficientCards(#[trigger] cards[j]),
                    )
            } else {
                &&& r matches Ok(hd) && hd@ == HandView {
                    stakes: h.stakes.push(StakeView { user_id: sender, cards }),
                    ..h
                }
                &&& new.users == old.users.update(ks, with_cards(u, new.users[ks].cards))
                &&& new.users[ks].cards.to_multiset() == u.cards.to_multiset().sub(
                    cards.to_multiset(),
                )
                &&& new.hands == old.hands.update(kh, r->Ok_0@)
                &&& new.hand_counter == old.hand_counter
                &&& new.offers == old.offers
                &&& new.offer_counter == old.offer_counter
            }
        }
    &&& r is Err ==> new == old
}

/// A stake as outside observers see it: its owner and its number of cards,
/// each shown as the Joker.
pub open spec fn masked_stake(s: StakeView) -> StakeView {
    StakeView { user_id: s.user_id, cards: Seq::new(s.cards.len(), |i: int| Card::JOKER) }
}

/// A hand as outside observers see it: every staked card hidden.
pub open spec fn masked(h: HandView) -> HandView {
    HandView { stakes: h.stakes.map_values(|s: StakeView| masked_stake(s)), ..h }
}

/// Hides the identity of every staked card, keeping the number and order of
/// stakes and of cards.
pub fn mask_hand_for_view(hand: &Hand) -> (r: Hand)
    ensures
        r@ == masked(hand@),
{
    let mut stakes: Vec<Stake> = Vec::new();
    let mut j: usize = 0;
    while j < hand.stakes.len()
        invariant
            0 <= j <= hand.stakes@.len(),
            stakes@.len() == j,
            forall|q: int| 0 <= q < j ==> (#[trigger] stakes@[q])@ == masked_stake(hand.stakes@[q]@),
        decreases hand.stakes@.len() - j,
    {
        let n = hand.stakes[j].cards.len();
        let mut cards: Vec<Card> = Vec::new();
        let mut i: usize = 0;
        while i < n
            invariant
                0 <= i <= n,
                cards@ == Seq::new(i as nat, |k: int| Card::JOKER),
            decreases n - i,
        {
            cards.push(Card::JOKER);
            i = i + 1;
            assert(cards@ =~= Seq::new(i as nat, |k: int| Card::JOKER));
        }
        stakes.push(Stake { user_id: hand.stakes[j].user_id.clone(), cards });
        j = j + 1;
    }
    let r = Hand {
        hand_id: hand.hand_id.clone(),
        creator: hand.creator.clone(),
        claimed_card: hand.claimed_card,
        is_resolved: hand.is_resolved,
        stakes,
    };
    assert(r@.stakes =~= masked(hand@).stakes);
    r
}

pub proof fn lemma_staked_count_push(stakes: Seq<StakeView>, s: StakeView)
    ensures
        staked_count(stakes.push(s)) == staked_count(stakes) + s.cards.len(),
{
    let f = |x: StakeView| x.cards.len() as int;
    assert(stakes.push(s).map_values(f) =~= stakes.map_values(f).push(f(s)));
    crate::contract::lemma_sum_push(stakes.map_values(f), f(s));
}

pub proof fn lemma_stake_reward_step(cards: Seq<Card>, i: int, claim: Card)
    requires
        0 <= i < cards.len(),
    ensures
        stake_reward(cards.subrange(0, i + 1), claim) == stake_reward(cards.subrange(0, i), claim)
            + card_reward(cards[i], claim),
{
    assert(cards.subrange(0, i + 1).drop_last() =~= cards.subrange(0, i));
}

pub proof fn lemma_stake_reward_prefix(cards: Seq<Card>, i: int, claim: Card)
    requires
        0 <= i <= cards.len(),
    ensures
        stake_reward(cards.subrange(0, i), claim) <= stake_reward(cards, claim),
    decreases cards.len() - i,
{
    if i < cards.len() {
        lemma_stake_reward_step(cards, i, claim);
        lemma_stake_reward_prefix(cards, i + 1, claim);
    } else {
        assert(cards.subrange(0, i) =~= cards);
    }
}

pub proof fn lemma_stake_reward_nonneg(cards: Seq<Card>, claim: Card)
    ensures
        stake_reward(cards, claim) >= 0,
    decreases cards.len(),
{
    if cards.len() > 0 {
        lemma_stake_reward_nonneg(cards.drop_last(), claim);
    }
}

pub proof fn lemma_credit_monotone(stakes: Seq<StakeView>, a: int, b: int, id: Seq<char>, claim: Card)
    requires
        0 <= a <= b,
    ensures
        credit(stakes, a, id, claim) <= credit(stakes, b, id, claim),
    decreases b,
{
    if a < b {
        lemma_credit_monotone(stakes, a, b - 1, id, claim);
        lemma_stake_reward_nonneg(stakes[b - 1].cards, claim);
    }
}

impl EscalateContractState {
    /// Credits the owner of each of the first `upto` stakes with the
    /// per-card rewards for that stake, in `bal`: scratch balances, one per
    /// user in the order of the user table. Fails, leaving `bal` unspecified,
    /// when a balance would leave the range of `i64`.
    fn reward_stakers(&self, bal: &mut Vec<i64>, stakes: &Vec<Stake>, upto: usize, claim: Card) -> (r: Result<
        (),
        EscalateError,
    >)
        requires
            self.wf(),
            old(bal)@.len() == self@.users.len(),
            upto <= stakes@.len(),
            forall|j: int| 0 <= j < upto ==> registered(self@.users, #[trigger] stakes@[j]@.user_id),
        ensures
            final(bal)@.len() == old(bal)@.len(),
            r is Ok ==> forall|q: int| 0 <= q < old(bal)@.len() ==> #[trigger] final(bal)@[q] == old(bal)@[q] + credit(
                stakes@.map_values(|s: Stake| s@),
                upto as int,
                self@.users[q].id,
                claim,
            ),
            r is Err ==> r == Err::<(), _>(EscalateError::Overflow) && exists|q: int|
                0 <= q < old(bal)@.len() && !fits_i64(
                    #[trigger] old(bal)@[q] + credit(
                        stakes@.map_values(|s: Stake| s@),
                        upto as int,
                        self@.users[q].id,
                        claim,
                    ),
                ),
    {
        let ghost sv = stakes@.map_values(|s: Stake| s@);
        let ghost base = bal@;
        let mut j: usize = 0;
        while j < upto
            invariant
                0 <= j <= upto,
                upto <= stakes@.len(),
                sv == stakes@.map_values(|s: Stake| s@),
                self.wf(),
                forall|j: int| 0 <= j < upto ==> registered(self@.users, #[trigger] stakes@[j]@.user_id),
                bal@.len() == self@.users.len(),
                base.len() == self@.users.len(),
                base == old(bal)@,
                forall|q: int|
                    0 <= q < bal@.len() ==> #[trigger] bal@[q] == base[q] + credit(
                        sv,
                        j as int,
                        self@.users[q].id,
                        claim,
                    ),
            decreases upto - j,
        {
            let stake = &stakes[j];
            assert(stake@ == sv[j as int]);
            assert(registered(self@.users, stake@.user_id));
            let ku = match self.find_user(&stake.user_id) {
                Some(q) => q,
                None => {
                    assert(false);
                    return Err(EscalateError::NotRegistered);
                },
            };
            let ghost before = bal@;
            let mut i: usize = 0;
            while i < stake.cards.len()
                invariant
                    0 <= i <= stake.cards@.len(),
                    bal@.len() == before.len(),
                    0 <= ku < bal@.len(),
                    forall|q: int| 0 <= q < bal@.len() && q != ku ==> #[trigger] bal@[q] == before[q],
                    bal@[ku as int] == before[ku as int] + stake_reward(
                        stake.cards@.subrange(0, i as int),
                        claim,
                    ),
                    j < upto,
                    upto <= stakes@.len(),
                    sv == stakes@.map_values(|s: Stake| s@),
                    stake@ == sv[j as int],
                    user_at(self@.users, stake@.user_id, ku as int),
                    bal@.len() == self@.users.len(),
                    base.len() == self@.users.len(),
                    base == old(bal)@,
                    before[ku as int] == base[ku as int] + credit(sv, j as int, self@.users[ku as int].id, claim),
                decreases stake.cards@.len() - i,
            {
                let reward: i64 = if Card::equivalent(stake.cards[i], claim) {
                    EQUIVALENT_REWARD
                } else {
                    BLUFF_REWARD
                };
                proof {
                    lemma_stake_reward_step(stake.cards@, i as int, claim);
                }
                if bal[ku] > i64::MAX - reward {
                    proof {
                        lemma_stake_reward_prefix(stake.cards@, i as int + 1, claim);
                        lemma_credit_monotone(sv, j as int + 1, upto as int, self@.users[ku as int].id, claim);
                        assert(!fits_i64(base[ku as int] + credit(sv, upto as int, self@.users[ku as int].id, claim)));
                    }
                    return Err(EscalateError::Overflow);
                }
                bal.set(ku, bal[ku] + reward);
                i = i + 1;
            }
            assert(stake.cards@.subrange(0, stake.cards@.len() as int) =~= stake.cards@);
            j = j + 1;
            proof {
                assert forall|q: int| 0 <= q < bal@.len() implies #[trigger] bal@[q] == base[q] + credit(
                    sv,
                    j as int,
                    self@.users[q].id,
                    claim,
                ) by {
                    if q != ku {
                        assert(self@.users[q].id != self@.users[ku as int].id);
                    }
                }
            }
        }
        Ok(())
    }

    /// Opens a hand claiming `claim`, staking `cards` from the caller's
    /// inventory.
    pub fn start_hand(&mut self, sender: String, claim: Card, cards: Vec<Card>) -> (r: Result<
        Hand,
        EscalateError,
    >)
        requires
            old(self).wf(),
        ensures
            final(self).wf(),
            start_hand_post(old(self)@, sender@, claim, cards@, r, final(self)@),
            total_funds(final(self)@) == total_funds(old(self)@),
            total_cards(final(self)@) == total_cards(old(self)@),
    {
        let ks = match self.find_user(&sender) {
            Some(k) => k,
            None => return Err(EscalateError::NotRegistered),
        };
        let ghost old_v = self@;
        let mut user = copy_user(&self.users[ks]);
        match remove_cards_from_inventory(&mut user.cards, &cards) {
            Ok(()) => {},
            Err(e) => return Err(e),
        }
        if self.hand_counter == u64::MAX {
            return Err(EscalateError::Overflow);
        }
        self.hand_counter = self.hand_counter + 1;
        let hand_id = self.hand_counter.to_string();
        let mut stakes: Vec<Stake> = Vec::new();
        stakes.push(Stake { user_id: sender.clone(), cards });
        let hand = Hand {
            hand_id,
            creator: sender.clone(),
            claimed_card: claim,
            is_resolved: false,
            stakes,
        };
        assert(hand@.stakes =~= seq![StakeView { user_id: sender@, cards: cards@ }]);
        let result = copy_hand(&hand);
        proof {
            lemma_users_update(old_v.users, ks as int, user@);
            lemma_hands_push(old_v.hands, hand@);
            lemma_staked_count_push(Seq::empty(), hand@.stakes[0]);
            assert(Seq::<StakeView>::empty().push(hand@.stakes[0]) =~= hand@.stakes);
            assert(staked_count(Seq::empty()) == 0) by {
                assert(Seq::<StakeView>::empty().map_values(|x: StakeView| x.cards.len() as int) =~= Seq::<int>::empty());
            }
        }
        self.users.set(ks, user);
        self.hands.push(hand);
        assert(self@.users =~= old_v.users.update(ks as int, user@));
        assert(self@.hands =~= old_v.hands.push(hand@));
        proof {
            assert(same_ids(old_v.users, self@.users));
            lemma_same_ids_registered(old_v.users, self@.users);
            assert(user_at(self@.users, sender@, ks as int));
            assert(hand_ok(self@.users, hand@));
            lemma_valid_frame(old_v, self@);
        }
        Ok(result)
    }

    /// Adds a stake of `cards`, taken from the caller's inventory, to an
    /// open hand.
    pub fn stake(&mut self, sender: String, hand_id: String, cards: Vec<Card>) -> (r: Result<
        Hand,
        EscalateError,
    >)
        requires
            old(self).wf(),
        ensures
            final(self).wf(),
            stake_post(old(self)@, sender@, hand_id@, cards@, r, final(self)@),
            total_funds(final(self)@) == total_funds(old(self)@),
            total_cards(final(self)@) == total_cards(old(self)@),
    {
        let ks = match self.find_user(&sender) {
            Some(k) => k,
            None => return Err(EscalateError::NotRegistered),
        };
        let kh = match self.find_hand(&hand_id) {
            Some(k) => k,
            None => return Err(EscalateError::NotFound),
        };
        let ghost old_v = self@;
        assert(self@.hands[kh as int] == self.hands@[kh as int]@);
        if self.hands[kh].is_resolved {
            return Err(EscalateError::AlreadyResolved);
        }
        let mut user = copy_user(&self.users[ks]);
        match remove_cards_from_inventory(&mut user.cards, &cards) {
            Ok(()) => {},
            Err(e) => return Err(e),
        }
        let mut hand = copy_hand(&self.hands[kh]);
        let ghost before = hand.stakes@;
        hand.stakes.push(Stake { user_id: sender.clone(), cards });
        assert(hand@.stakes =~= old_v.hands[kh as int].stakes.push(
            StakeView { user_id: sender@, cards: cards@ },
        ));
        let result = copy_hand(&hand);
        proof {
            lemma_users_update(old_v.users, ks as int, user@);
            lemma_hands_update(old_v.hands, kh as int, hand@);
            lemma_staked_count_push(
                old_v.hands[kh as int].stakes,
                StakeView { user_id: sender@, cards: cards@ },
            );
        }
        self.users.set(ks, user);
        self.hands.set(kh, hand);
        assert(self@.users =~= old_v.users.update(ks as int, user@));
        assert(self@.hands =~= old_v.hands.update(kh as int, result@));
        proof {
            assert(same_ids(old_v.users, self@.users));
            lemma_same_ids_registered(old_v.users, self@.users);
            assert(user_at(self@.users, sender@, ks as int));
            assert(hand_ok(old_v.users, old_v.hands[kh as int]));
            assert(hand_ok(self@.users, self@.hands[kh as int]));
            lemma_valid_frame(old_v, self@);
        }
        Ok(result)
    }

    /// Every hand, in order of creation, with staked cards hidden.
    pub fn get_hands(&self) -> (r: Vec<Hand>)
        ensures
            r@.map_values(|h: Hand| h@) == self@.hands.map_values(|h: HandView| masked(h)),
    {
        let mut r: Vec<Hand> = Vec::new();
        let mut k: usize = 0;
        while k < self.hands.len()
            invariant
                0 <= k <= self.hands@.len(),
                r@.len() == k,
                forall|j: int| 0 <= j < k ==> (#[trigger] r@[j])@ == masked(self@.hands[j]),
            decreases self.hands@.len() - k,
        {
            r.push(mask_hand_for_view(&self.hands[k]));
            k = k + 1;
        }
        assert(r@.map_values(|h: Hand| h@) =~= self@.hands.map_values(|h: HandView| masked(h)));
        r
    }

    /// The first hand named `id`, with staked cards hidden.
    pub fn get_hand(&self, id: String) -> (r: Option<Hand>)
        ensures
            r is None <==> !has_hand(self@.hands, id@),
            r matches Some(h) ==> exists|k: int| hand_at(self@.hands, id@, k) && h@ == masked(self@.hands[k]),
    {
        match self.find_hand(&id) {
            Some(k) => Some(mask_hand_for_view(&self.hands[k])),
            None => None,
        }
    }

    /// Resolves an open hand by testing its last stake against the claim,
    /// and pays out. Returns whether the hand was a bluff.
    #[verifier::rlimit(50)]
    pub fn check(&mut self, sender: String, hand_id: String) -> (r: Result<bool, EscalateError>)
        requires
            old(self).wf(),
        ensures
            final(self).wf(),
            check_post(old(self)@, sender@, hand_id@, r, final(self)@),
    {
        let kc = match self.find_user(&sender) {
            Some(k) => k,
            None => return Err(EscalateError::NotRegistered),
        };
        let kh = match self.find_hand(&hand_id) {
            Some(k) => k,
            None => return Err(EscalateError::NotFound),
        };
        let ghost old_v = self@;
        let ghost h = self@.hands[kh as int];
        assert(h == self.hands@[kh as int]@);
        if self.hands[kh].is_resolved {
            return Err(EscalateError::AlreadyResolved);
        }
        assert(hand_ok(old_v.users, h));
        let hand = &self.hands[kh];
        let bluff = is_bluff(hand);
        let n = hand.stakes.len();
        let last_len = hand.stakes[n - 1].cards.len();
        assert(last_len == h.stakes.last().cards.len());
        if last_len as u64 > MAX_CHECKED_CARDS {
            return Err(EscalateError::Overflow);
        }
        let won: i64 = CHECK_UNIT * (last_len as i64);
        let claim = hand.claimed_card;
        let upto: usize = if bluff {
            n - 1
        } else {
            n
        };
        // scratch balances, committed only once every reward fits
        let mut bal: Vec<i64> = Vec::new();
        let mut k: usize = 0;
        while k < self.users.len()
            invariant
                0 <= k <= self.users@.len(),
                self@ == old_v,
                bal@.len() == k,
                forall|j: int| 0 <= j < k ==> bal@[j] == old_v.users[j].balance,
            decreases self.users@.len() - k,
        {
            bal.push(self.users[k].balance);
            k = k + 1;
        }
        if bluff {
            if bal[kc] > i64::MAX - won {
                return Err(EscalateError::Overflow);
            }
            bal.set(kc, bal[kc] + won);
        } else {
            if bal[kc] < i64::MIN + won {
                return Err(EscalateError::Overflow);
            }
            bal.set(kc, bal[kc] - won);
        }
        let ghost base = bal@;
        assert(base[kc as int] == checker_adjusted(old_v.users[kc as int], h));
        assert(forall|j: int| 0 <= j < h.stakes.len() ==> registered(old_v.users, #[trigger] h.stakes[j].user_id));
        assert forall|j: int| 0 <= j < upto implies registered(self@.users, #[trigger] hand.stakes@[j]@.user_id) by {
            assert(hand.stakes@[j]@ == h.stakes[j]);
        }
        assert(hand.stakes@.map_values(|s: Stake| s@) == h.stakes);
        match self.reward_stakers(&mut bal, &hand.stakes, upto, claim) {
            Ok(()) => {},
            Err(e) => {
                proof {
                    let q = choose|q: int|
                        0 <= q < base.len() && !fits_i64(
                            #[trigger] base[q] + credit(h.stakes, upto as int, old_v.users[q].id, claim),
                        );
                    assert(!fits_i64(settled(old_v.users[q], h, sender@)));
                    assert(check_overflows(old_v.users, h, kc as int));
                }
                return Err(e);
            },
        }
        assert forall|q: int| 0 <= q < bal@.len() implies #[trigger] bal@[q] == settled(old_v.users[q], h, sender@) by {}
        let mut closed = copy_hand(&self.hands[kh]);
        closed.is_resolved = true;
        let mut q: usize = 0;
        while q < self.users.len()
            invariant
                0 <= q <= self.users@.len(),
                self.users@.len() == old_v.users.len(),
                self@.hands == old_v.hands,
                self@.offers == old_v.offers,
                self.hand_counter == old_v.hand_counter,
                self.offer_counter == old_v.offer_counter,
                bal@.len() == old_v.users.len(),
                forall|p: int| 0 <= p < bal@.len() ==> #[trigger] bal@[p] == settled(old_v.users[p], h, sender@),
                forall|p: int| 0 <= p < q ==> #[trigger] self@.users[p] == with_balance(old_v.users[p], bal@[p] as int),
                forall|p: int| q <= p < self.users@.len() ==> #[trigger] self@.users[p] == old_v.users[p],
            decreases self.users@.len() - q,
        {
            assert(self@.users[q as int] == old_v.users[q as int]);
            let mut u = copy_user(&self.users[q]);
            assert(u@ == self@.users[q as int]);
            u.balance = bal[q];
            assert(u@ == with_balance(old_v.users[q as int], bal@[q as int] as int));
            let ghost prev = self@.users;
            self.users.set(q, u);
            assert(self@.users =~= prev.update(q as int, u@));
            q = q + 1;
        }
        assert(q == old_v.users.len());
        assert(forall|p: int| 0 <= p < old_v.users.len() ==> #[trigger] self@.users[p] == with_balance(old_v.users[p], bal@[p] as int));
        let ghost new_users = Seq::new(
            old_v.users.len(),
            |q: int| with_balance(old_v.users[q], settled(old_v.users[q], h, sender@)),
        );
        assert(self@.users =~= new_users) by {
            assert forall|p: int| 0 <= p < new_users.len() implies #[trigger] self@.users[p] == new_users[p] by {
                assert(bal@[p] == settled(old_v.users[p], h, sender@));
                assert(self@.users[p] == with_balance(old_v.users[p], bal@[p] as int));
                assert(new_users[p] == with_balance(old_v.users[p], settled(old_v.users[p], h, sender@)));
            }
        }
        let ghost done = self@.users;
        self.hands.set(kh, closed);
        assert(self@.users == done);
        assert(self@.hands =~= old_v.hands.update(kh as int, HandView { resolved: true, ..h }));
        proof {
            assert(same_ids(old_v.users, self@.users));
            lemma_same_ids_registered(old_v.users, self@.users);
            assert(hand_ok(self@.users, self@.hands[kh as int]));
            lemma_valid_frame(old_v, self@);
            lemma_hands_update(old_v.hands, kh as int, self@.hands[kh as int]);
            lemma_same_cards(old_v.users, self@.users);
            assert(!check_overflows(old_v.users, h, kc as int));
        }
        Ok(bluff)
    }
}

/// Changing balances alone keeps the number of cards held.
pub proof fn lemma_same_cards(a: Seq<UserView>, b: Seq<UserView>)
    requires
        a.len() == b.len(),
        forall|i: int| 0 <= i < a.len() ==> #[trigger] a[i].cards == b[i].cards,
    ensures
        crate::contract::inventory_total(a) == crate::contract::inventory_total(b),
{
    assert(a.map_values(|u: UserView| u.cards.len() as int) =~= b.map_values(
        |u: UserView| u.cards.len() as int,
    ));
}

} // verus!
