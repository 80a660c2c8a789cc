use solitaire::deck::{Card, GameError, Stack, Suit};
use solitaire::game::Game;
use solitaire::klondike::{Klondike, MoveCommand, Position};

fn card(suit: Suit, rank: u8) -> Card {
    Card { suit, rank, visible: true }
}

fn empty_board() -> Klondike {
    Klondike {
        deck: Stack { cards: vec![], top: 0 },
        discard: vec![],
        columns: vec![vec![], vec![], vec![], vec![], vec![], vec![], vec![]],
        top_stacks: vec![vec![], vec![], vec![], vec![]],
    }
}

fn cmd(location: Position, i: usize) -> MoveCommand {
    MoveCommand { location, i }
}

#[test]
fn initial_deal_is_triangular() {
    let game = Klondike::new();
    assert_eq!(game.deck.cards.len(), 52);
    assert_eq!(game.deck.size(), 24);
    assert_eq!(game.discard.len(), 0);
    assert_eq!(game.columns.len(), 7);
    for (i, col) in game.columns.iter().enumerate() {
        assert_eq!(col.len(), i + 1);
        for (j, c) in col.iter().enumerate() {
            assert_eq!(c.visible, j == i);
        }
    }
    for f in &game.top_stacks {
        assert!(f.is_empty());
    }
}

#[test]
fn deal_then_draws_drain_pile_into_waste() {
    let mut game = Klondike::new();
    assert_eq!(game.deck.size(), 24);
    for _ in 0..8 {
        game.handle_draw();
    }
    assert_eq!(game.deck.size(), 0);
    assert_eq!(game.discard.len(), 24);
    // A further draw is a silent no-op, not an error.
    game.handle_draw();
    assert_eq!(game.discard.len(), 24);
}

#[test]
fn partial_draw_is_not_an_error() {
    let mut game = empty_board();
    game.deck = Stack { cards: vec![card(Suit::Club, 2), card(Suit::Club, 3)], top: 0 };
    game.handle_draw();
    assert_eq!(game.deck.size(), 0);
    assert_eq!(game.discard, vec![card(Suit::Club, 2), card(Suit::Club, 3)]);
}

#[test]
fn foundation_takes_ace_not_two() {
    for suit in [Suit::Club, Suit::Spade, Suit::Heart, Suit::Diamond] {
        let mut game = empty_board();
        game.discard = vec![card(suit, 14)];
        let r = game.handle_move(cmd(Position::Waste, 0), cmd(Position::Top, 0));
        assert_eq!(r, Ok(()));
        assert!(game.discard.is_empty());
    }

    let mut game = empty_board();
    game.discard = vec![card(Suit::Heart, 2)];
    let before = game.discard.clone();
    let r = game.handle_move(cmd(Position::Waste, 0), cmd(Position::Top, 0));
    assert_eq!(r, Err(GameError::IllegalMove));
    assert_eq!(game.discard, before);
}

#[test]
fn foundation_builds_ascending_same_suit() {
    let mut game = empty_board();
    game.top_stacks[2] = vec![card(Suit::Heart, 14)];
    game.discard = vec![card(Suit::Heart, 13)];
    assert_eq!(
        game.is_move_valid(cmd(Position::Waste, 0), cmd(Position::Top, 0)),
        Ok(true)
    );
    assert_eq!(game.handle_move(cmd(Position::Waste, 0), cmd(Position::Top, 0)), Ok(()));
    assert_eq!(
        game.top_stacks[2],
        vec![card(Suit::Heart, 14), card(Suit::Heart, 13)]
    );
}

#[test]
fn column_takes_opposite_color_descending() {
    // A red 10 onto a black jack succeeds.
    let mut game = empty_board();
    game.columns[2] = vec![card(Suit::Spade, 11)];
    game.discard = vec![card(Suit::Heart, 10)];
    assert_eq!(
        game.is_move_valid(cmd(Position::Waste, 0), cmd(Position::Columns, 2)),
        Ok(true)
    );
    assert_eq!(game.handle_move(cmd(Position::Waste, 0), cmd(Position::Columns, 2)), Ok(()));
    assert_eq!(game.columns[2], vec![card(Suit::Spade, 11), card(Suit::Heart, 10)]);

    // A red 10 onto a red jack fails.
    let mut game = empty_board();
    game.columns[2] = vec![card(Suit::Diamond, 11)];
    game.discard = vec![card(Suit::Heart, 10)];
    assert_eq!(
        game.is_move_valid(cmd(Position::Waste, 0), cmd(Position::Columns, 2)),
        Ok(false)
    );

    // A red 10 onto an open column fails: only a king starts a column.
    let mut game = empty_board();
    game.discard = vec![card(Suit::Heart, 10)];
    assert_eq!(
        game.is_move_valid(cmd(Position::Waste, 0), cmd(Position::Columns, 2)),
        Ok(false)
    );
    let mut game = empty_board();
    game.discard = vec![card(Suit::Heart, 13)];
    assert_eq!(
        game.is_move_valid(cmd(Position::Waste, 0), cmd(Position::Columns, 2)),
        Ok(true)
    );
}

#[test]
fn rejected_move_leaves_state_unchanged() {
    let mut game = Klondike::new();
    game.handle_draw();
    let cards = game.deck.cards.clone();
    let top = game.deck.top;
    let discard = game.discard.clone();
    let columns = game.columns.clone();
    let top_stacks = game.top_stacks.clone();

    // The draw pile is never a legal source, whatever it holds.
    let r = game.handle_move(cmd(Position::Stack, 0), cmd(Position::Columns, 0));
    assert_eq!(r, Err(GameError::IllegalMove));
    // A column index past the board is named as such.
    let r = game.handle_move(cmd(Position::Columns, 7), cmd(Position::Columns, 0));
    assert_eq!(r, Err(GameError::InvalidLocation));

    assert_eq!(game.deck.cards, cards);
    assert_eq!(game.deck.top, top);
    assert_eq!(game.discard, discard);
    assert_eq!(game.columns, columns);
    assert_eq!(game.top_stacks, top_stacks);
}

#[test]
fn empty_source_is_reported() {
    let mut game = empty_board();
    assert_eq!(
        game.handle_move(cmd(Position::Waste, 0), cmd(Position::Columns, 0)),
        Err(GameError::EmptySource)
    );
    assert_eq!(
        game.handle_move(cmd(Position::Columns, 3), cmd(Position::Top, 0)),
        Err(GameError::EmptySource)
    );
}

#[test]
fn column_move_reveals_next_card() {
    let mut game = empty_board();
    game.columns[0] = vec![
        Card { suit: Suit::Club, rank: 9, visible: false },
        card(Suit::Diamond, 12),
    ];
    game.columns[1] = vec![card(Suit::Spade, 13)];
    let r = game.handle_move(cmd(Position::Columns, 0), cmd(Position::Columns, 1));
    assert_eq!(r, Ok(()));
    assert_eq!(game.columns[0], vec![card(Suit::Club, 9)]);
    assert_eq!(game.columns[1], vec![card(Suit::Spade, 13), card(Suit::Diamond, 12)]);
}

#[test]
fn win_needs_full_foundations() {
    let mut game = empty_board();
    assert!(!game.win());
    for f in 0..4 {
        let suit = [Suit::Club, Suit::Spade, Suit::Heart, Suit::Diamond][f];
        game.top_stacks[f] = (2..=14).rev().map(|r| card(suit, r)).collect();
    }
    assert!(game.win());
    game.top_stacks[3].pop();
    assert!(!game.win());
}
