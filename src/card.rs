use vstd::prelude::*;

verus! {

/// A playing card, as it travels on the wire: its suit (1 to 6; suit 1 is the
/// fixed-value wildcard suit, suit 6 scores double) and its rank (face value,
/// which also selects the card's effect).
#[derive(Clone, Copy, Debug, PartialEq, Eq, Structural)]
pub struct Card {
    pub id: u8,
    pub card_number: u8,
}

impl Card {
    pub fn new(id: u8, card_number: u8) -> (r: Card)
        ensures
            r == (Card { id, card_number }),
    {
        Card { id, card_number }
    }
}

impl Default for Card {
    fn default() -> (r: Card)
        ensures
            r == (Card { id: 0, card_number: 0 }),
    {
        Card { id: 0, card_number: 0 }
    }
}

/// Suit identifiers, in the order in which the deck is built.
pub const WHOT_SUIT: u8 = 1;
pub const CIRCLE_SUIT: u8 = 2;
pub const TRIANGLE_SUIT: u8 = 3;
pub const CROSS_SUIT: u8 = 4;
pub const SQUARE_SUIT: u8 = 5;
pub const STAR_SUIT: u8 = 6;

/// Number of cards in a full deck.
pub const DECK_SIZE: usize = 54;

/// The ranks of each suit, as declared.
pub open spec fn whot_ranks() -> Seq<u8> {
    seq![20u8, 20, 20, 20, 20]
}

pub open spec fn circle_ranks() -> Seq<u8> {
    seq![1u8, 2, 3, 4, 5, 7, 8, 10, 11, 12, 13, 14]
}

pub open spec fn triangle_ranks() -> Seq<u8> {
    seq![1u8, 2, 3, 4, 5, 7, 8, 10, 11, 12, 13, 14]
}

pub open spec fn cross_ranks() -> Seq<u8> {
    seq![1u8, 2, 3, 5, 7, 10, 11, 13, 14]
}

pub open spec fn square_ranks() -> Seq<u8> {
    seq![1u8, 2, 3, 5, 7, 10, 11, 13, 14]
}

pub open spec fn star_ranks() -> Seq<u8> {
    seq![1u8, 2, 3, 4, 5, 7, 8]
}

/// The cards of one suit, one per declared rank, in declared order.
pub open spec fn suit_cards(id: u8, ranks: Seq<u8>) -> Seq<Card> {
    ranks.map_values(|n: u8| Card { id, card_number: n })
}

/// The canonical deck: suit-major, each suit's ranks in declared order.
pub open spec fn canonical_deck() -> Seq<Card> {
    suit_cards(WHOT_SUIT, whot_ranks()) + suit_cards(CIRCLE_SUIT, circle_ranks()) + suit_cards(
        TRIANGLE_SUIT,
        triangle_ranks(),
    ) + suit_cards(CROSS_SUIT, cross_ranks()) + suit_cards(SQUARE_SUIT, square_ranks())
        + suit_cards(STAR_SUIT, star_ranks())
}

/// Builds the cards of suit `id`, one per entry of `ranks`, in order.
pub fn get_card_array(id: u8, ranks: &[u8]) -> (r: Vec<Card>)
    ensures
        r@ == suit_cards(id, ranks@),
{
    let mut out: Vec<Card> = Vec::new();
    let mut i: usize = 0;
    while i < ranks.len()
        invariant
            i <= ranks@.len(),
            out@ == suit_cards(id, ranks@.subrange(0, i as int)),
        decreases ranks@.len() - i,
    {
        out.push(Card { id, card_number: ranks[i] });
        i = i + 1;
        assert(out@ =~= suit_cards(id, ranks@.subrange(0, i as int)));
    }
    assert(ranks@.subrange(0, i as int) =~= ranks@);
    out
}

fn append_cards(deck: &mut Vec<Card>, cards: Vec<Card>)
    ensures
        final(deck)@ == old(deck)@ + cards@,
{
    let mut cards = cards;
    deck.append(&mut cards);
}

/// Builds the full, unshuffled deck of 54 cards in canonical order.
pub fn full_deck() -> (r: Vec<Card>)
    ensures
        r@ == canonical_deck(),
        r@.len() == DECK_SIZE,
{
    let whot: [u8; 5] = [20, 20, 20, 20, 20];
    let circle: [u8; 12] = [1, 2, 3, 4, 5, 7, 8, 10, 11, 12, 13, 14];
    let triangle: [u8; 12] = [1, 2, 3, 4, 5, 7, 8, 10, 11, 12, 13, 14];
    let cross: [u8; 9] = [1, 2, 3, 5, 7, 10, 11, 13, 14];
    let square: [u8; 9] = [1, 2, 3, 5, 7, 10, 11, 13, 14];
    let star: [u8; 7] = [1, 2, 3, 4, 5, 7, 8];
    assert(whot@ =~= whot_ranks());
    assert(circle@ =~= circle_ranks());
    assert(triangle@ =~= triangle_ranks());
    assert(cross@ =~= cross_ranks());
    assert(square@ =~= square_ranks());
    assert(star@ =~= star_ranks());
    let mut deck: Vec<Card> = Vec::new();
    append_cards(&mut deck, get_card_array(WHOT_SUIT, whot.as_slice()));
    append_cards(&mut deck, get_card_array(CIRCLE_SUIT, circle.as_slice()));
    append_cards(&mut deck, get_card_array(TRIANGLE_SUIT, triangle.as_slice()));
    append_cards(&mut deck, get_card_array(CROSS_SUIT, cross.as_slice()));
    append_cards(&mut deck, get_card_array(SQUARE_SUIT, square.as_slice()));
    append_cards(&mut deck, get_card_array(STAR_SUIT, star.as_slice()));
    assert(deck@ =~= canonical_deck());
    deck
}

pub proof fn lemma_canonical_deck_len()
    ensures
        canonical_deck().len() == DECK_SIZE,
{
}

} // verus!
