use solitaire::deck::{Card, GameError, Stack, Suit};

#[test]
fn new_card() {
    let card = Card::new_visible(Suit::Heart, 3);
    assert_eq!(card.unwrap().text(), " 3\u{2764}");
}

#[test]
fn deck() {
    let deck = Stack::new_deck(false);

    assert_eq!(deck.cards.len(), 52)
}

#[test]
fn deck_with_joker() {
    let deck = Stack::new_deck(true);

    assert_eq!(deck.cards.len(), 54)
}

#[test]
fn invalid_card() {
    let card = Card::new(Suit::Club, 15);
    match card {
        Err(_) => assert_eq!(true, true),
        Ok(_) => assert_eq!(false, true),
    }
}

#[test]
fn shuffle() {
    let mut deck = Stack::new_deck(false);

    let first_before = deck.cards[0];

    deck.shuffle();

    let first_after = deck.cards[0];

    assert_ne!(first_before, first_after);
}

#[test]
fn draw() {
    let mut deck = Stack::new_deck(false);

    let _ = deck.draw();

    let size_after = deck.size();

    assert_eq!(size_after, 51);
}

#[test]
fn deal() {
    let mut deck = Stack::new_deck(false);

    deck.shuffle();

    let hand = deck.deal(5).unwrap();

    assert_eq!(hand.len(), 5);
    assert_eq!(deck.size(), 47)
}

#[test]
fn hidden_card_text() {
    let card = Card::new(Suit::Heart, 3).unwrap().conceal();
    assert_eq!(card.text(), "? ?");
    let seen = card.see();
    assert!(seen.visible);
    assert_eq!(seen.text(), " 3\u{2764}");
}

#[test]
fn rank_lower_bound_rejected() {
    assert_eq!(Card::new(Suit::Spade, 1), Err(GameError::InvalidRank));
    assert_eq!(Card::new(Suit::Spade, 0), Err(GameError::InvalidRank));
    assert_eq!(Card::new_visible(Suit::Spade, 15), Err(GameError::InvalidRank));
}

#[test]
fn card_color() {
    assert!(Card::new(Suit::Club, 5).unwrap().color());
    assert!(Card::new(Suit::Spade, 5).unwrap().color());
    assert!(!Card::new(Suit::Heart, 5).unwrap().color());
    assert!(!Card::new(Suit::Diamond, 5).unwrap().color());
    assert!(Card::new(Suit::Heart, 14).unwrap().is_ace());
    assert!(!Card::new(Suit::Heart, 13).unwrap().is_ace());
}

#[test]
fn deck_holds_every_card_once() {
    for with_joker in [false, true] {
        for deck in [Stack::new_deck(with_joker), Stack::new_deck_reverse(with_joker)] {
            let expected = if with_joker { 54 } else { 52 };
            assert_eq!(deck.cards.len(), expected);
            for suit in [Suit::Club, Suit::Spade, Suit::Heart, Suit::Diamond] {
                for rank in 2..=14u8 {
                    let count = deck
                        .cards
                        .iter()
                        .filter(|c| c.suit == suit && c.rank == rank)
                        .count();
                    assert_eq!(count, 1);
                }
            }
        }
    }
}

#[test]
fn draw_on_empty_pile_fails() {
    let mut pile = Stack { cards: vec![], top: 0 };
    assert_eq!(pile.draw(), Err(GameError::EmptyStack));
    assert_eq!(pile.size(), 0);
    assert!(pile.top_card().is_none());
}

#[test]
fn draw_shrinks_by_one() {
    let mut deck = Stack::new_deck(false);
    for expected in (0..52).rev() {
        let next = deck.top_card();
        let drawn = deck.draw().unwrap();
        assert_eq!(next, Some(drawn));
        assert_eq!(deck.size(), expected);
    }
    assert_eq!(deck.draw(), Err(GameError::EmptyStack));
}

#[test]
fn shuffle_keeps_size_and_drawn_cards() {
    let mut deck = Stack::new_deck(false);
    let dealt = deck.deal(10).unwrap();
    assert_eq!(deck.size(), 42);

    let prefix_before: Vec<Card> = deck.cards[..10].to_vec();
    let mut remainder_before: Vec<(Suit, u8)> =
        deck.cards[10..].iter().map(|c| (c.suit, c.rank)).collect();

    deck.shuffle();

    assert_eq!(deck.size(), 42);
    assert_eq!(deck.top, 10);
    assert_eq!(&deck.cards[..10], &prefix_before[..]);
    assert_eq!(dealt[..], prefix_before[..]);

    let mut remainder_after: Vec<(Suit, u8)> =
        deck.cards[10..].iter().map(|c| (c.suit, c.rank)).collect();
    let key = |c: &(Suit, u8)| (c.1, format!("{:?}", c.0));
    remainder_before.sort_by_key(key);
    remainder_after.sort_by_key(key);
    assert_eq!(remainder_before, remainder_after);
}

#[test]
fn deal_too_many_leaves_pile_alone() {
    let mut deck = Stack::new_deck(false);
    assert_eq!(deck.deal(53).unwrap_err(), GameError::EmptyStack);
    assert_eq!(deck.size(), 52);
    assert_eq!(deck.top, 0);
}
