use escalate::accounts::CARD_PRICE;
use escalate::contract::EscalateContractState;
use escalate::elements::{get_random_cards, is_bluff, Card, Hand, Offer, Stake, User};
use escalate::hands::{mask_hand_for_view, BLUFF_REWARD, EQUIVALENT_REWARD};
use escalate::ledger::{remove_cards_from_inventory, EscalateError};
use escalate::user::INITIAL_BALANCE;

fn s(x: &str) -> String {
    x.to_string()
}

fn balance(st: &EscalateContractState, id: &str) -> i64 {
    st.get_user(s(id)).unwrap().balance
}

fn cards_of(st: &EscalateContractState, id: &str) -> Vec<Card> {
    st.get_my_cards(s(id)).unwrap()
}

fn all_ranks() -> Vec<Card> {
    vec![
        Card::ACE,
        Card::TWO,
        Card::THREE,
        Card::FOUR,
        Card::FIVE,
        Card::SIX,
        Card::SEVEN,
        Card::EIGHT,
        Card::NINE,
        Card::TEN,
        Card::JACK,
        Card::QUEEN,
        Card::KING,
        Card::JOKER,
    ]
}

fn total_cards(st: &EscalateContractState) -> usize {
    let inv: usize = st.get_users().iter().map(|u| u.cards.len()).sum();
    let hands: usize = st
        .get_hands()
        .iter()
        .filter(|h| !h.is_resolved)
        .map(|h| h.stakes.iter().map(|x| x.cards.len()).sum::<usize>())
        .sum();
    let offers: usize = st
        .get_offers()
        .iter()
        .filter(|o| !o.is_resolved)
        .map(|o| o.cards.len())
        .sum();
    inv + hands + offers
}

fn hand_with(claim: Card, stakes: Vec<Vec<Card>>) -> Hand {
    Hand {
        hand_id: s("1"),
        creator: s("a"),
        claimed_card: claim,
        is_resolved: false,
        stakes: stakes
            .into_iter()
            .map(|cards| Stake { user_id: s("a"), cards })
            .collect(),
    }
}

#[test]
fn joker_is_equivalent_to_everything() {
    for x in all_ranks() {
        assert!(Card::equivalent(Card::JOKER, x));
        assert!(Card::equivalent(x, Card::JOKER));
    }
}

#[test]
fn plain_cards_are_equivalent_only_when_equal() {
    for x in all_ranks() {
        for y in all_ranks() {
            if x != Card::JOKER && y != Card::JOKER {
                assert_eq!(Card::equivalent(x, y), x == y);
            }
        }
    }
    assert!(!Card::equivalent(Card::TWO, Card::KING));
}

#[test]
fn joker_stake_never_bluffs_a_king() {
    assert!(!is_bluff(&hand_with(Card::KING, vec![vec![Card::JOKER]])));
    assert!(!is_bluff(&hand_with(Card::KING, vec![vec![Card::TWO], vec![Card::JOKER]])));
}

#[test]
fn two_stake_always_bluffs_a_king() {
    assert!(is_bluff(&hand_with(Card::KING, vec![vec![Card::TWO]])));
    assert!(is_bluff(&hand_with(Card::KING, vec![vec![Card::KING], vec![Card::TWO]])));
    assert!(is_bluff(&hand_with(Card::KING, vec![vec![Card::KING, Card::TWO]])));
}

#[test]
fn only_the_last_stake_is_judged() {
    assert!(!is_bluff(&hand_with(Card::KING, vec![vec![Card::TWO], vec![Card::KING]])));
}

#[test]
fn draws_follow_the_deck_from_the_seed() {
    assert_eq!(get_random_cards(12, 3), vec![Card::KING, Card::JOKER, Card::ACE]);
    assert_eq!(get_random_cards(0, 2), vec![Card::ACE, Card::TWO]);
    assert_eq!(get_random_cards(u64::MAX, 1), vec![get_random_cards(u64::MAX % 14, 1)[0]]);
    assert_eq!(get_random_cards(5, 0), Vec::<Card>::new());
    assert_eq!(get_random_cards(7, 30).len(), 30);
    assert_eq!(get_random_cards(7, 30), get_random_cards(7, 30));
}

#[test]
fn removal_takes_exact_cards() {
    let mut inv = vec![Card::KING, Card::JOKER, Card::KING, Card::ACE];
    assert_eq!(remove_cards_from_inventory(&mut inv, &vec![Card::KING, Card::ACE]), Ok(()));
    let mut rest = inv.clone();
    rest.sort_by_key(|c| *c as u8);
    assert_eq!(rest, vec![Card::KING, Card::JOKER]);
}

#[test]
fn removal_does_not_use_the_wildcard() {
    let mut inv = vec![Card::JOKER];
    assert_eq!(
        remove_cards_from_inventory(&mut inv, &vec![Card::KING]),
        Err(EscalateError::InsufficientCards(Card::KING))
    );
}

#[test]
fn removal_counts_repetitions() {
    let mut inv = vec![Card::KING, Card::ACE];
    assert_eq!(
        remove_cards_from_inventory(&mut inv, &vec![Card::KING, Card::KING]),
        Err(EscalateError::InsufficientCards(Card::KING))
    );
}

#[test]
fn registration_gives_initial_balance_and_keeps_it_on_update() {
    let mut st = EscalateContractState::new().unwrap();
    let u = st.register_user(s("a"), s("hello")).unwrap();
    assert_eq!(u.balance, INITIAL_BALANCE);
    assert_eq!(u.balance, 1000);
    assert_eq!(u.bio, "hello");
    st.deposit(s("a"), 50).unwrap();
    let u2 = st.register_user(s("a"), s("bye")).unwrap();
    assert_eq!(u2.bio, "bye");
    assert_eq!(u2.balance, 1050);
    assert_eq!(st.get_users().len(), 1);
    assert!(st.get_user(s("b")).is_none());
}

#[test]
fn deposit_rejects_non_positive_amounts() {
    let mut st = EscalateContractState::new().unwrap();
    assert_eq!(st.deposit(s("a"), 0), Err(EscalateError::InvalidAmount));
    assert_eq!(st.deposit(s("a"), -5), Err(EscalateError::InvalidAmount));
    assert!(st.get_user(s("a")).is_none());
}

#[test]
fn deposit_registers_an_unknown_caller() {
    let mut st = EscalateContractState::new().unwrap();
    st.deposit(s("z"), 25).unwrap();
    let u = st.get_user(s("z")).unwrap();
    assert_eq!(u.balance, 1025);
    assert_eq!(u.bio, "");
}

#[test]
fn deposit_overflow_is_refused() {
    let mut st = EscalateContractState::new().unwrap();
    st.register_user(s("a"), s("")).unwrap();
    assert_eq!(st.deposit(s("a"), i64::MAX), Err(EscalateError::Overflow));
    assert_eq!(balance(&st, "a"), 1000);
}

#[test]
fn get_my_cards_needs_registration() {
    let st = EscalateContractState::new().unwrap();
    assert_eq!(st.get_my_cards(s("a")), Err(EscalateError::NotRegistered));
}

#[test]
fn buying_spends_whole_units() {
    let mut st = EscalateContractState::new().unwrap();
    assert_eq!(st.buy_cards(s("a"), 0, 30), Err(EscalateError::NotRegistered));
    st.register_user(s("a"), s("")).unwrap();
    assert_eq!(st.buy_cards(s("a"), 0, 9), Ok(vec![]));
    assert_eq!(st.buy_cards(s("a"), 0, -40), Ok(vec![]));
    assert_eq!(balance(&st, "a"), 1000);
    let got = st.buy_cards(s("a"), 12, 25).unwrap();
    assert_eq!(got, vec![Card::KING, Card::JOKER]);
    assert_eq!(balance(&st, "a"), 1000 - 2 * CARD_PRICE);
    assert_eq!(cards_of(&st, "a"), vec![Card::KING, Card::JOKER]);
    assert_eq!(st.buy_cards(s("a"), 0, 10000), Err(EscalateError::InsufficientBalance));
}

#[test]
fn starting_a_hand_needs_the_cards() {
    let mut st = EscalateContractState::new().unwrap();
    assert!(matches!(
        st.start_hand(s("a"), Card::KING, vec![Card::KING]),
        Err(EscalateError::NotRegistered)
    ));
    st.register_user(s("a"), s("")).unwrap();
    assert!(matches!(
        st.start_hand(s("a"), Card::KING, vec![Card::KING]),
        Err(EscalateError::InsufficientCards(Card::KING))
    ));
    assert!(st.get_hands().is_empty());
}

#[test]
fn hand_identifiers_count_up() {
    let mut st = EscalateContractState::new().unwrap();
    st.register_user(s("a"), s("")).unwrap();
    st.buy_cards(s("a"), 0, 20).unwrap();
    let h1 = st.start_hand(s("a"), Card::ACE, vec![Card::ACE]).unwrap();
    let h2 = st.start_hand(s("a"), Card::TWO, vec![Card::TWO]).unwrap();
    assert_eq!(h1.hand_id, "1");
    assert_eq!(h2.hand_id, "2");
    assert_eq!(h1.stakes.len(), 1);
    assert_eq!(h1.stakes[0].cards, vec![Card::ACE]);
    assert!(!h1.is_resolved);
}

#[test]
fn listing_hides_staked_cards() {
    let mut st = EscalateContractState::new().unwrap();
    st.register_user(s("a"), s("")).unwrap();
    st.buy_cards(s("a"), 0, 30).unwrap();
    st.start_hand(s("a"), Card::KING, vec![Card::ACE, Card::TWO]).unwrap();
    st.stake(s("a"), s("1"), vec![Card::THREE]).unwrap();
    let h = st.get_hand(s("1")).unwrap();
    assert_eq!(h.stakes.len(), 2);
    assert_eq!(h.stakes[0].cards, vec![Card::JOKER, Card::JOKER]);
    assert_eq!(h.stakes[1].cards, vec![Card::JOKER]);
    assert_eq!(h.claimed_card, Card::KING);
    let all = st.get_hands();
    assert_eq!(all.len(), 1);
    assert_eq!(all[0].stakes[0].cards, vec![Card::JOKER, Card::JOKER]);
    assert!(st.get_hand(s("9")).is_none());
    let m = mask_hand_for_view(&hand_with(Card::ACE, vec![vec![Card::TWO, Card::KING]]));
    assert_eq!(m.stakes[0].cards, vec![Card::JOKER, Card::JOKER]);
    assert_eq!(m.stakes[0].user_id, "a");
}

#[test]
fn joker_stake_on_king_claim_scenario() {
    let mut st = EscalateContractState::new().unwrap();
    st.register_user(s("a"), s("")).unwrap();
    st.deposit(s("a"), 500).unwrap();
    assert_eq!(st.buy_cards(s("a"), 12, 10).unwrap(), vec![Card::KING]);
    st.start_hand(s("a"), Card::KING, vec![Card::KING]).unwrap();
    st.register_user(s("b"), s("")).unwrap();
    assert_eq!(st.buy_cards(s("b"), 13, 10).unwrap(), vec![Card::JOKER]);
    st.stake(s("b"), s("1"), vec![Card::JOKER]).unwrap();
    let a_before = balance(&st, "a");
    let b_before = balance(&st, "b");
    assert_eq!(st.check(s("a"), s("1")), Ok(false));
    assert_eq!(balance(&st, "b"), b_before + EQUIVALENT_REWARD);
    // the checker loses one unit for the one-card stake and, as a staker
    // of an equivalent card, is rewarded one unit
    assert_eq!(balance(&st, "a"), a_before - 10 + EQUIVALENT_REWARD);
    assert_eq!(st.check(s("a"), s("1")), Err(EscalateError::AlreadyResolved));
    assert!(matches!(
        st.stake(s("b"), s("1"), vec![]),
        Err(EscalateError::AlreadyResolved)
    ));
}

#[test]
fn bluff_rewards_all_but_last_staker() {
    let mut st = EscalateContractState::new().unwrap();
    for id in ["a", "b", "c"] {
        st.register_user(s(id), s("")).unwrap();
    }
    st.buy_cards(s("a"), 12, 10).unwrap(); // KING
    st.buy_cards(s("b"), 0, 20).unwrap(); // ACE, TWO
    st.start_hand(s("a"), Card::KING, vec![Card::KING]).unwrap();
    st.stake(s("b"), s("1"), vec![Card::ACE]).unwrap();
    st.stake(s("b"), s("1"), vec![Card::TWO]).unwrap();
    let (a0, b0, c0) = (balance(&st, "a"), balance(&st, "b"), balance(&st, "c"));
    assert_eq!(st.check(s("c"), s("1")), Ok(true));
    assert_eq!(balance(&st, "c"), c0 + 10);
    assert_eq!(balance(&st, "a"), a0 + EQUIVALENT_REWARD);
    // b's ACE stake is rewarded; the bluffing last stake is not
    assert_eq!(balance(&st, "b"), b0 + BLUFF_REWARD);
}

#[test]
fn honest_check_rewards_every_stake_separately() {
    let mut st = EscalateContractState::new().unwrap();
    for id in ["a", "b", "c"] {
        st.register_user(s(id), s("")).unwrap();
    }
    st.buy_cards(s("a"), 0, 10).unwrap(); // ACE
    st.buy_cards(s("b"), 12, 20).unwrap(); // KING, JOKER
    st.start_hand(s("a"), Card::KING, vec![Card::ACE]).unwrap();
    st.stake(s("b"), s("1"), vec![Card::KING]).unwrap();
    st.stake(s("b"), s("1"), vec![Card::JOKER]).unwrap();
    let (a0, b0, c0) = (balance(&st, "a"), balance(&st, "b"), balance(&st, "c"));
    assert_eq!(st.check(s("c"), s("1")), Ok(false));
    assert_eq!(balance(&st, "c"), c0 - 10);
    assert_eq!(balance(&st, "a"), a0 + BLUFF_REWARD);
    assert_eq!(balance(&st, "b"), b0 + 2 * EQUIVALENT_REWARD);
    assert_eq!(BLUFF_REWARD, 12);
    assert_eq!(EQUIVALENT_REWARD, 10);
}

#[test]
fn checker_may_go_negative() {
    let mut st = EscalateContractState::new().unwrap();
    st.register_user(s("a"), s("")).unwrap();
    st.register_user(s("c"), s("")).unwrap();
    st.buy_cards(s("a"), 12, 20).unwrap(); // KING, JOKER
    st.buy_cards(s("c"), 0, 1000).unwrap(); // spends everything
    assert_eq!(balance(&st, "c"), 0);
    st.start_hand(s("a"), Card::KING, vec![Card::KING, Card::JOKER]).unwrap();
    assert_eq!(st.check(s("c"), s("1")), Ok(false));
    assert_eq!(balance(&st, "c"), -20);
}

#[test]
fn check_errors() {
    let mut st = EscalateContractState::new().unwrap();
    assert_eq!(st.check(s("a"), s("1")), Err(EscalateError::NotRegistered));
    st.register_user(s("a"), s("")).unwrap();
    assert_eq!(st.check(s("a"), s("1")), Err(EscalateError::NotFound));
    assert!(matches!(st.stake(s("a"), s("1"), vec![]), Err(EscalateError::NotFound)));
}

#[test]
fn auction_scenario() {
    let mut st = EscalateContractState::new().unwrap();
    st.register_user(s("a"), s("")).unwrap();
    assert_eq!(st.buy_cards(s("a"), 0, 10).unwrap(), vec![Card::ACE]);
    let o = st.offer(s("a"), vec![Card::ACE], 100).unwrap();
    assert_eq!(o.offer_id, "1");
    assert!(cards_of(&st, "a").is_empty());
    let a0 = balance(&st, "a");
    assert_eq!(st.bid(s("b"), s("1"), 150), Err(EscalateError::NotRegistered));
    st.register_user(s("b"), s("")).unwrap();
    assert_eq!(st.bid(s("b"), s("1"), 150), Ok(()));
    assert_eq!(balance(&st, "b"), 850);
    st.register_user(s("c"), s("")).unwrap();
    assert_eq!(st.bid(s("c"), s("1"), 200), Ok(()));
    assert_eq!(balance(&st, "b"), 1000);
    assert_eq!(balance(&st, "c"), 800);
    assert_eq!(st.resolve(s("a"), s("1")), Ok(()));
    assert_eq!(balance(&st, "a"), a0 + 200);
    assert_eq!(cards_of(&st, "c"), vec![Card::ACE]);
    assert!(st.get_offers()[0].is_resolved);
}

#[test]
fn bid_errors() {
    let mut st = EscalateContractState::new().unwrap();
    st.register_user(s("a"), s("")).unwrap();
    st.register_user(s("b"), s("")).unwrap();
    assert_eq!(st.bid(s("b"), s("1"), 150), Err(EscalateError::NotFound));
    st.offer(s("a"), vec![], 100).unwrap();
    assert_eq!(st.bid(s("a"), s("1"), 150), Err(EscalateError::Unauthorized));
    assert_eq!(st.bid(s("b"), s("1"), 100), Err(EscalateError::InvalidAmount));
    assert_eq!(st.bid(s("b"), s("1"), 5000), Err(EscalateError::InsufficientBalance));
    assert_eq!(balance(&st, "b"), 1000);
    st.bid(s("b"), s("1"), 300).unwrap();
    assert_eq!(st.bid(s("b"), s("1"), 300), Err(EscalateError::InvalidAmount));
    st.resolve(s("a"), s("1")).unwrap();
    assert_eq!(st.bid(s("b"), s("1"), 400), Err(EscalateError::AlreadyResolved));
}

#[test]
fn rebid_by_same_bidder_refunds_first() {
    let mut st = EscalateContractState::new().unwrap();
    st.register_user(s("a"), s("")).unwrap();
    st.register_user(s("b"), s("")).unwrap();
    st.offer(s("a"), vec![], 100).unwrap();
    st.bid(s("b"), s("1"), 600).unwrap();
    assert_eq!(balance(&st, "b"), 400);
    // 900 is only covered once the standing 600 is refunded
    st.bid(s("b"), s("1"), 900).unwrap();
    assert_eq!(balance(&st, "b"), 100);
    assert_eq!(st.get_offers()[0].current_bid, Some(900));
}

#[test]
fn refunds_keep_total_money() {
    let mut st = EscalateContractState::new().unwrap();
    for id in ["a", "b", "c"] {
        st.register_user(s(id), s("")).unwrap();
    }
    st.offer(s("a"), vec![], 10).unwrap();
    let total = |st: &EscalateContractState| -> i64 {
        let b: i64 = st.get_users().iter().map(|u| u.balance).sum();
        let e: i64 = st
            .get_offers()
            .iter()
            .filter(|o| !o.is_resolved)
            .map(|o| o.current_bid.unwrap_or(0))
            .sum();
        b + e
    };
    let t0 = total(&st);
    for (who, amt) in [("b", 20), ("c", 30), ("b", 40), ("b", 50), ("c", 60)] {
        st.bid(s(who), s("1"), amt).unwrap();
        assert_eq!(total(&st), t0);
    }
    st.withdraw_bid(s("c"), s("1")).unwrap();
    assert_eq!(total(&st), t0);
    assert_eq!(balance(&st, "b"), 1000);
    assert_eq!(balance(&st, "c"), 1000);
}

#[test]
fn withdraw_bid_rules() {
    let mut st = EscalateContractState::new().unwrap();
    st.register_user(s("a"), s("")).unwrap();
    st.register_user(s("b"), s("")).unwrap();
    assert_eq!(st.withdraw_bid(s("b"), s("1")), Err(EscalateError::NotFound));
    st.offer(s("a"), vec![], 100).unwrap();
    assert_eq!(st.withdraw_bid(s("b"), s("1")), Err(EscalateError::Unauthorized));
    st.bid(s("b"), s("1"), 200).unwrap();
    assert_eq!(st.withdraw_bid(s("a"), s("1")), Err(EscalateError::Unauthorized));
    assert_eq!(st.withdraw_bid(s("b"), s("1")), Ok(()));
    assert_eq!(balance(&st, "b"), 1000);
    let o = &st.get_offers()[0];
    assert_eq!(o.current_bid, None);
    assert_eq!(o.current_bidder_id, None);
    assert!(!o.is_resolved);
    st.bid(s("b"), s("1"), 200).unwrap();
    st.resolve(s("a"), s("1")).unwrap();
    assert_eq!(st.withdraw_bid(s("b"), s("1")), Err(EscalateError::AlreadyResolved));
    assert_eq!(balance(&st, "b"), 800);
}

#[test]
fn resolve_twice_is_resolve_once() {
    let mut st = EscalateContractState::new().unwrap();
    st.register_user(s("a"), s("")).unwrap();
    st.register_user(s("b"), s("")).unwrap();
    st.buy_cards(s("a"), 3, 10).unwrap(); // FOUR
    st.offer(s("a"), vec![Card::FOUR], 100).unwrap();
    st.bid(s("b"), s("1"), 150).unwrap();
    assert_eq!(st.resolve(s("b"), s("1")), Err(EscalateError::Unauthorized));
    assert_eq!(st.resolve(s("a"), s("9")), Err(EscalateError::NotFound));
    st.resolve(s("a"), s("1")).unwrap();
    let once = (balance(&st, "a"), balance(&st, "b"), cards_of(&st, "a"), cards_of(&st, "b"));
    assert_eq!(st.resolve(s("a"), s("1")), Ok(()));
    let twice = (balance(&st, "a"), balance(&st, "b"), cards_of(&st, "a"), cards_of(&st, "b"));
    assert_eq!(once, twice);
    assert_eq!(twice.3, vec![Card::FOUR]);
}

#[test]
fn unsold_cards_return_to_creator() {
    let mut st = EscalateContractState::new().unwrap();
    st.register_user(s("a"), s("")).unwrap();
    st.buy_cards(s("a"), 0, 20).unwrap();
    st.offer(s("a"), vec![Card::TWO], 50).unwrap();
    assert_eq!(cards_of(&st, "a"), vec![Card::ACE]);
    st.resolve(s("a"), s("1")).unwrap();
    assert_eq!(cards_of(&st, "a"), vec![Card::ACE, Card::TWO]);
    assert_eq!(balance(&st, "a"), 980);
}

#[test]
fn offer_errors() {
    let mut st = EscalateContractState::new().unwrap();
    assert!(matches!(st.offer(s("a"), vec![], 5), Err(EscalateError::NotRegistered)));
    st.register_user(s("a"), s("")).unwrap();
    assert!(matches!(
        st.offer(s("a"), vec![Card::QUEEN], 5),
        Err(EscalateError::InsufficientCards(Card::QUEEN))
    ));
    assert!(st.get_offers().is_empty());
}

#[test]
fn cards_are_conserved_except_by_buying_and_checking() {
    let mut st = EscalateContractState::new().unwrap();
    for id in ["a", "b", "c"] {
        st.register_user(s(id), s("")).unwrap();
    }
    st.buy_cards(s("a"), 0, 50).unwrap();
    st.buy_cards(s("b"), 5, 50).unwrap();
    let t = total_cards(&st);
    assert_eq!(t, 10);
    st.start_hand(s("a"), Card::ACE, vec![Card::ACE, Card::TWO]).unwrap();
    assert_eq!(total_cards(&st), t);
    st.stake(s("b"), s("1"), vec![Card::SIX]).unwrap();
    assert_eq!(total_cards(&st), t);
    st.offer(s("b"), vec![Card::SEVEN], 10).unwrap();
    assert_eq!(total_cards(&st), t);
    st.bid(s("c"), s("1"), 20).unwrap();
    st.resolve(s("b"), s("1")).unwrap();
    assert_eq!(total_cards(&st), t);
    assert_eq!(cards_of(&st, "c"), vec![Card::SEVEN]);
    st.check(s("c"), s("1")).unwrap();
    assert_eq!(total_cards(&st), t - 3);
}

#[test]
fn constructors_and_record_methods() {
    let mut u = User::new(s("x"), s("bio"));
    assert_eq!(u.balance, 1000);
    assert!(u.cards.is_empty());
    u.deposit(15);
    assert_eq!(u.balance, 1015);
    u.add_cards(vec![Card::ACE, Card::ACE]);
    u.add_cards(vec![Card::KING]);
    assert_eq!(u.cards, vec![Card::ACE, Card::ACE, Card::KING]);
    let o = Offer::new(s("7"), s("x"), vec![Card::TEN], 40);
    assert_eq!(o.initial_price, 40);
    assert_eq!(o.current_bid, None);
    assert_eq!(o.current_bidder_id, None);
    assert!(!o.is_resolved);
    assert_eq!(o.cards, vec![Card::TEN]);
}
