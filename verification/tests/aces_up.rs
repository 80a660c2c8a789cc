use solitaire::aces_up::AcesUpGame;
use solitaire::deck::{Card, GameError, Suit};
use solitaire::game::Game;

#[test]
fn clean() {
    let mut game = AcesUpGame::new();

    game.columns = vec![
        vec![Card { suit: Suit::Club, rank: 13, visible: false }],
        vec![Card { suit: Suit::Club, rank: 12, visible: false }],
        vec![
            Card { suit: Suit::Spade, rank: 5, visible: false },
            Card { suit: Suit::Club, rank: 11, visible: false },
        ],
        vec![
            Card { suit: Suit::Spade, rank: 6, visible: false },
            Card { suit: Suit::Spade, rank: 14, visible: false },
        ],
    ];

    game.clean();

    assert_eq!(
        game.columns,
        vec![
            vec![Card { suit: Suit::Club, rank: 13, visible: false }],
            vec![],
            vec![],
            vec![
                Card { suit: Suit::Spade, rank: 6, visible: false },
                Card { suit: Suit::Spade, rank: 14, visible: false },
            ],
        ]
    );
}

#[test]
fn win_false() {
    let mut game = AcesUpGame::new();

    game.columns = vec![
        vec![Card { suit: Suit::Club, rank: 13, visible: false }],
        vec![Card { suit: Suit::Club, rank: 12, visible: false }],
        vec![
            Card { suit: Suit::Spade, rank: 5, visible: false },
            Card { suit: Suit::Club, rank: 11, visible: false },
        ],
        vec![
            Card { suit: Suit::Spade, rank: 6, visible: false },
            Card { suit: Suit::Spade, rank: 14, visible: false },
        ],
    ];

    assert_eq!(game.win(), false)
}

fn card(suit: Suit, rank: u8) -> Card {
    Card { suit, rank, visible: true }
}

#[test]
fn clean_is_idempotent() {
    let mut game = AcesUpGame::new();
    game.columns = vec![
        vec![card(Suit::Club, 13)],
        vec![card(Suit::Club, 12)],
        vec![card(Suit::Spade, 5), card(Suit::Club, 11)],
        vec![card(Suit::Spade, 6), card(Suit::Spade, 14)],
    ];

    game.clean();
    let once = game.columns.clone();
    game.clean();
    assert_eq!(game.columns, once);
}

#[test]
fn win_needs_four_single_aces() {
    let mut game = AcesUpGame::new();

    game.columns = vec![
        vec![card(Suit::Club, 14)],
        vec![card(Suit::Spade, 14)],
        vec![card(Suit::Heart, 14)],
        vec![card(Suit::Diamond, 14)],
    ];
    assert!(game.win());

    // An empty column is not a win, and no error either.
    game.columns = vec![
        vec![card(Suit::Club, 14)],
        vec![],
        vec![card(Suit::Heart, 14)],
        vec![card(Suit::Diamond, 14)],
    ];
    assert!(!game.win());

    // A column of two cards is not a win even when an ace tops it.
    game.columns = vec![
        vec![card(Suit::Club, 14)],
        vec![card(Suit::Spade, 2), card(Suit::Spade, 14)],
        vec![card(Suit::Heart, 14)],
        vec![card(Suit::Diamond, 14)],
    ];
    assert!(!game.win());

    // A single non-ace is not a win.
    game.columns = vec![
        vec![card(Suit::Club, 14)],
        vec![card(Suit::Spade, 13)],
        vec![card(Suit::Heart, 14)],
        vec![card(Suit::Diamond, 14)],
    ];
    assert!(!game.win());
}

#[test]
fn turn_deals_one_card_per_column() {
    let mut game = AcesUpGame::new();
    assert_eq!(game.deck.size(), 52);
    game.turn();
    assert_eq!(game.deck.size(), 48);
    for col in &game.columns {
        assert_eq!(col.len(), 1);
        assert!(col[0].visible);
    }
}

#[test]
fn handle_move_rules() {
    let mut game = AcesUpGame::new();
    game.columns = vec![
        vec![card(Suit::Club, 13)],
        vec![],
        vec![card(Suit::Heart, 7)],
        vec![card(Suit::Diamond, 2)],
    ];

    assert_eq!(game.handle_move(4, 1), Err(GameError::InvalidLocation));
    assert_eq!(game.handle_move(0, 9), Err(GameError::InvalidLocation));
    // Source must hold a card.
    assert_eq!(game.handle_move(1, 0), Err(GameError::IllegalMove));
    // Destination must be open.
    assert_eq!(game.handle_move(0, 2), Err(GameError::IllegalMove));

    assert_eq!(game.handle_move(0, 1), Ok(()));
    assert_eq!(game.columns[0], vec![]);
    assert_eq!(game.columns[1], vec![card(Suit::Club, 13)]);
}

#[test]
fn can_move_positions_reports_rightmost() {
    let mut game = AcesUpGame::new();
    game.columns = vec![
        vec![],
        vec![card(Suit::Spade, 14)],
        vec![card(Suit::Club, 9)],
        vec![],
    ];
    assert_eq!(game.can_move_positions(), (3, 1));

    game.columns = vec![
        vec![card(Suit::Spade, 2)],
        vec![card(Suit::Heart, 3)],
        vec![card(Suit::Club, 9)],
        vec![card(Suit::Diamond, 4)],
    ];
    assert_eq!(game.can_move_positions(), (-1, -1));
}

#[test]
fn try_move_aces_fills_open_columns() {
    let mut game = AcesUpGame::new();
    game.columns = vec![
        vec![],
        vec![card(Suit::Spade, 14)],
        vec![card(Suit::Club, 13)],
        vec![card(Suit::Heart, 14)],
    ];

    game.try_move_aces();

    assert_eq!(
        game.columns,
        vec![
            vec![card(Suit::Heart, 14)],
            vec![],
            vec![card(Suit::Club, 13)],
            vec![card(Suit::Spade, 14)],
        ]
    );
}
