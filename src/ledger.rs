use vstd::prelude::*;
use crate::elements::Card;

verus! {

broadcast use vstd::seq_lib::group_to_multiset_ensures;

/// Why an operation of the engine was refused.
#[derive(Debug, Clone, Copy, PartialEq, Eq, Structural)]
pub enum EscalateError {
    /// The caller has no user record.
    NotRegistered,
    /// The caller's inventory lacks this card.
    InsufficientCards(Card),
    /// The caller's balance does not cover the amount.
    InsufficientBalance,
    /// The hand or offer is already resolved.
    AlreadyResolved,
    /// No hand or offer has that identifier.
    NotFound,
    /// The caller may not act on that record.
    Unauthorized,
    /// The amount is not positive, or not above the standing price.
    InvalidAmount,
    /// A balance or counter would leave the range of its machine integer.
    Overflow,
}

/// `cards` can be taken out of `inventory`, counting repetitions.
pub open spec fn covers(inventory: Seq<Card>, cards: Seq<Card>) -> bool {
    cards.to_multiset().subset_of(inventory.to_multiset())
}

/// The card at position `j` of `cards` is the first that `inventory` cannot
/// supply.
pub open spec fn first_missing(inventory: Seq<Card>, cards: Seq<Card>, j: int) -> bool {
    0 <= j < cards.len() && covers(inventory, cards.subrange(0, j)) && !covers(
        inventory,
        cards.subrange(0, j + 1),
    )
}

/// Removes one exactly equal card from `inventory` for each card of `cards`.
/// On failure the inventory is left in an unspecified state, so callers work
/// on a scratch copy.
pub fn remove_cards_from_inventory(inventory: &mut Vec<Card>, cards: &Vec<Card>) -> (r: Result<
    (),
    EscalateError,
>)
    ensures
        r is Ok <==> covers(old(inventory)@, cards@),
        r is Ok ==> final(inventory)@.to_multiset() =~= old(inventory)@.to_multiset().sub(
            cards@.to_multiset(),
        ),
        r is Ok ==> final(inventory)@.len() == old(inventory)@.len() - cards@.len(),
        r matches Err(e) ==> exists|j: int|
            first_missing(old(inventory)@, cards@, j) && e == EscalateError::InsufficientCards(
                #[trigger] cards@[j],
            ),
{
    let ghost orig = inventory@;
    let mut i: usize = 0;
    while i < cards.len()
        invariant
            0 <= i <= cards@.len(),
            orig == old(inventory)@,
            covers(orig, cards@.subrange(0, i as int)),
            inventory@.to_multiset() =~= orig.to_multiset().sub(
                cards@.subrange(0, i as int).to_multiset(),
            ),
        decreases cards@.len() - i,
    {
        let card = cards[i];
        let ghost pre = cards@.subrange(0, i as int);
        let ghost next = cards@.subrange(0, i as int + 1);
        assert(next =~= pre.push(card));
        let mut p: usize = 0;
        while p < inventory.len() && inventory[p] != card
            invariant
                0 <= p <= inventory@.len(),
                forall|q: int| 0 <= q < p ==> inventory@[q] != card,
            decreases inventory@.len() - p,
        {
            p = p + 1;
        }
        if p == inventory.len() {
            assert(!inventory@.contains(card));
            assert(inventory@.to_multiset().count(card) == 0);
            assert(next.to_multiset().count(card) == pre.to_multiset().count(card) + 1);
            assert(orig.to_multiset().count(card) == pre.to_multiset().count(card));
            assert(!covers(orig, next));
            assert(first_missing(orig, cards@, i as int));
            proof {
                if covers(orig, cards@) {
                    assert(cards@.subrange(0, i as int + 1).to_multiset().count(card)
                        <= cards@.to_multiset().count(card)) by {
                        vstd::seq_lib::lemma_multiset_commutative(
                            cards@.subrange(0, i as int + 1),
                            cards@.subrange(i as int + 1, cards@.len() as int),
                        );
                        assert(cards@.subrange(0, i as int + 1) + cards@.subrange(
                            i as int + 1,
                            cards@.len() as int,
                        ) =~= cards@);
                    }
                    assert(cards@.to_multiset().count(card) <= orig.to_multiset().count(card));
                }
            }
            assert(card == cards@[i as int]);
            return Err(EscalateError::InsufficientCards(card));
        }
        assert(inventory@[p as int] == card);
        assert(inventory@.to_multiset().count(card) > 0);
        assert(covers(orig, next)) by {
            assert forall|v: Card| next.to_multiset().count(v) <= orig.to_multiset().count(v) by {
                if v == card {
                    assert(next.to_multiset().count(v) == pre.to_multiset().count(v) + 1);
                }
            }
        }
        inventory.remove(p);
        assert(inventory@.to_multiset() =~= orig.to_multiset().sub(next.to_multiset()));
        i = i + 1;
    }
    assert(cards@.subrange(0, cards@.len() as int) =~= cards@);
    proof {
        let ms = orig.to_multiset();
        let cs = cards@.to_multiset();
        assert(ms.sub(cs).len() == ms.len() - cs.len()) by {
            assert(ms =~= ms.sub(cs).add(cs));
        }
    }
    Ok(())
}

/// Copies a sequence of cards.
pub fn copy_cards(cards: &Vec<Card>) -> (r: Vec<Card>)
    ensures
        r@ == cards@,
{
    let mut r: Vec<Card> = Vec::new();
    let mut i: usize = 0;
    while i < cards.len()
        invariant
            0 <= i <= cards@.len(),
            r@ == cards@.subrange(0, i as int),
        decreases cards@.len() - i,
    {
        r.push(cards[i]);
        i = i + 1;
        assert(r@ =~= cards@.subrange(0, i as int));
    }
    assert(cards@.subrange(0, cards@.len() as int) =~= cards@);
    r
}

/// Appends `cards` to `inventory`; never fails.
pub fn add_to_inventory(inventory: &mut Vec<Card>, cards: &Vec<Card>)
    ensures
        final(inventory)@ == old(inventory)@ + cards@,
{
    let ghost orig = inventory@;
    let mut i: usize = 0;
    while i < cards.len()
        invariant
            0 <= i <= cards@.len(),
            inventory@ == orig + cards@.subrange(0, i as int),
        decreases cards@.len() - i,
    {
        inventory.push(cards[i]);
        i = i + 1;
        assert(inventory@ =~= orig + cards@.subrange(0, i as int));
    }
    assert(cards@.subrange(0, cards@.len() as int) =~= cards@);
}

} // verus!
