//! The Klondike engine: a seven-column tableau dealt in a triangle, four
//! per-suit foundations, a waste pile fed from the draw pile, and the
//! move-legality rules between them.

use vstd::prelude::*;
use crate::deck::{Card, GameError, Stack, Suit, face_up, rank_major_card};
use crate::game::Game;

verus! {

/// A place a move can name on the Klondike board: a foundation (`Top`), a
/// tableau column, the draw pile itself, or the waste pile.
#[derive(Debug, Clone, Copy, PartialEq, Eq, Structural)]
pub enum Position {
    Top,
    Columns,
    Stack,
    Waste,
}

/// One end of a move: a position, and a column index where the position
/// needs one.
#[derive(Debug, Clone, Copy, PartialEq, Eq, Structural)]
pub struct MoveCommand {
    pub location: Position,
    pub i: usize,
}

/// The Klondike board: draw pile, waste (`discard`), seven tableau columns,
/// and the four foundations (`top_stacks`), indexed per suit.
pub struct Klondike {
    pub deck: Stack,
    pub discard: Vec<Card>,
    pub columns: Vec<Vec<Card>>,
    pub top_stacks: Vec<Vec<Card>>,
}

/// The foundation slot of each suit; the joker owns none.
pub open spec fn spec_suit_index(s: Suit) -> int {
    match s {
        Suit::Club => 0,
        Suit::Spade => 1,
        Suit::Heart => 2,
        Suit::Diamond => 3,
        Suit::Joker => 4,
    }
}

/// The foundation slot of a suit, as `spec_suit_index` names it.
pub fn suit_index(s: Suit) -> (r: usize)
    ensures
        r == spec_suit_index(s),
{
    match s {
        Suit::Club => 0,
        Suit::Spade => 1,
        Suit::Heart => 2,
        Suit::Diamond => 3,
        Suit::Joker => 4,
    }
}

/// Where the `j`-th card of the triangular deal's pass `j` run begins in the
/// deck: pass `j` deals one card to each of columns `j` through 6.
pub open spec fn deal_start(p: int) -> int
    decreases p,
{
    if p <= 0 {
        0
    } else {
        deal_start(p - 1) + (7 - (p - 1))
    }
}

proof fn lemma_deal_start_values()
    ensures
        deal_start(0) == 0,
        deal_start(1) == 7,
        deal_start(2) == 13,
        deal_start(3) == 18,
        deal_start(4) == 22,
        deal_start(5) == 25,
        deal_start(6) == 27,
        deal_start(7) == 28,
{
    reveal_with_fuel(deal_start, 9);
}

/// The card the triangular deal leaves at depth `j` of column `c`: the deck
/// card of pass `j`, face up only when it tops the column.
pub open spec fn dealt_card(cards: Seq<Card>, c: int, j: int) -> Card {
    let drawn = cards[deal_start(j) + (c - j)];
    Card { suit: drawn.suit, rank: drawn.rank, visible: j == c }
}

/// A column top that loses a card shows its next card face up.
pub open spec fn reveal_top(s: Seq<Card>) -> Seq<Card> {
    if s.len() == 0 {
        s
    } else {
        s.update(s.len() - 1, face_up(s.last()))
    }
}

impl Klondike {
    /// A board always has seven columns, four foundations, a sound draw
    /// pile, and only cards whose ranks the engine works with.
    pub open spec fn wf(self) -> bool {
        &&& self.deck.wf()
        &&& self.columns@.len() == 7
        &&& self.top_stacks@.len() == 4
        &&& forall|c: int, j: int| 0 <= c < 7 && 0 <= j < self.columns@[c]@.len()
            ==> (#[trigger] self.columns@[c]@[j]).wf()
        &&& forall|j: int| 0 <= j < self.discard@.len() ==> (#[trigger] self.discard@[j]).wf()
        &&& forall|f: int, j: int| 0 <= f < 4 && 0 <= j < self.top_stacks@[f]@.len()
            ==> (#[trigger] self.top_stacks@[f]@[j]).wf()
    }

    /// The pile a move draws its card from. Meaningful only for a waste or
    /// column source.
    pub open spec fn source_seq(self, from: MoveCommand) -> Seq<Card> {
        if from.location is Waste {
            self.discard@
        } else {
            self.columns@[from.i as int]@
        }
    }

    /// The card a move would relocate: the exposed top of its source.
    pub open spec fn moved_card(self, from: MoveCommand) -> Card {
        self.source_seq(from).last()
    }

    /// The whole verdict on a proposed move. A column index past the board
    /// is `InvalidLocation`; a foundation or the draw pile as source, or the
    /// draw pile or waste as destination, is simply not a legal move; an
    /// empty source is `EmptySource`. Otherwise the placement rules decide:
    /// onto a column, an empty one takes a king and a held one takes the
    /// opposite color one rank down; onto the card's own foundation, an
    /// empty one takes an ace and a held one takes the same color one rank
    /// down.
    pub open spec fn move_check(self, from: MoveCommand, to: MoveCommand) -> Result<
        bool,
        GameError,
    > {
        if from.location is Columns && from.i >= 7 {
            Err(GameError::InvalidLocation)
        } else if to.location is Columns && to.i >= 7 {
            Err(GameError::InvalidLocation)
        } else if !(from.location is Columns || from.location is Waste) {
            Ok(false)
        } else if self.source_seq(from).len() == 0 {
            Err(GameError::EmptySource)
        } else {
            let c = self.moved_card(from);
            if to.location is Columns {
                let col = self.columns@[to.i as int]@;
                if col.len() == 0 {
                    Ok(c.rank == 13)
                } else {
                    Ok(c.spec_color() != col.last().spec_color() && c.rank == col.last().rank - 1)
                }
            } else if to.location is Top {
                if c.suit is Joker {
                    Ok(false)
                } else {
                    let f = self.top_stacks@[spec_suit_index(c.suit)]@;
                    if f.len() == 0 {
                        Ok(c.rank == 14)
                    } else {
                        Ok(c.spec_color() == f.last().spec_color() && c.rank == f.last().rank - 1)
                    }
                }
            } else {
                Ok(false)
            }
        }
    }

    /// What column `k` holds after a valid move: the source column loses its
    /// top and shows the next card, and a column destination gains the card.
    pub open spec fn col_after(self, from: MoveCommand, to: MoveCommand, k: int) -> Seq<Card> {
        let base = if from.location is Columns && from.i == k {
            reveal_top(self.columns@[k]@.drop_last())
        } else {
            self.columns@[k]@
        };
        if to.location is Columns && to.i == k {
            base.push(self.moved_card(from))
        } else {
            base
        }
    }

    /// What foundation `f` holds after a valid move.
    pub open spec fn top_stack_after(self, from: MoveCommand, to: MoveCommand, f: int) -> Seq<
        Card,
    > {
        if to.location is Top && spec_suit_index(self.moved_card(from).suit) == f {
            self.top_stacks@[f]@.push(self.moved_card(from))
        } else {
            self.top_stacks@[f]@
        }
    }

    /// Starts a game: a shuffled deck and the triangular deal — column `c`
    /// receives `c + 1` cards, all face down but the top one — which
    /// consumes exactly 28 cards and leaves 24 on the pile.
    pub fn new() -> (r: Klondike)
        ensures
            r.wf(),
            r.deck.cards@.len() == 52,
            r.deck.top == 28,
            r.deck.cards@.to_multiset() == Seq::new(52, |k: int| rank_major_card(k)).to_multiset(),
            r.discard@.len() == 0,
            forall|f: int| 0 <= f < 4 ==> (#[trigger] r.top_stacks@[f]@).len() == 0,
            forall|c: int| 0 <= c < 7 ==> (#[trigger] r.columns@[c]@).len() == c + 1,
            forall|c: int, j: int| 0 <= c < 7 && 0 <= j <= c
                ==> #[trigger] r.columns@[c]@[j] == dealt_card(r.deck.cards@, c, j),
    {
        let mut deck = Stack::new_deck(false);
        proof {
            assert(deck.cards@ =~= Seq::new(52, |k: int| rank_major_card(k)));
            assert(deck.undrawn() =~= deck.cards@);
        }
        deck.shuffle();
        proof {
            assert(deck.undrawn() =~= deck.cards@);
        }
        let mut top_stacks: Vec<Vec<Card>> = Vec::new();
        top_stacks.push(Vec::new());
        top_stacks.push(Vec::new());
        top_stacks.push(Vec::new());
        top_stacks.push(Vec::new());
        let mut columns: Vec<Vec<Card>> = Vec::new();
        let mut k: usize = 0;
        while k < 7
            invariant
                k <= 7,
                columns@.len() == k,
                forall|c: int| 0 <= c < k ==> (#[trigger] columns@[c]@).len() == 0,
            decreases 7 - k,
        {
            columns.push(Vec::new());
            k = k + 1;
        }
        let mut game = Klondike { deck, top_stacks, columns, discard: Vec::new() };
        let ghost cards0 = game.deck.cards@;
        proof {
            lemma_deal_start_values();
        }
        let mut p: usize = 0;
        while p < 7
            invariant
                p <= 7,
                game.wf(),
                game.deck.cards@ == cards0,
                game.deck.cards@.len() == 52,
                game.deck.top == deal_start(p as int),
                0 <= deal_start(p as int) <= 28,
                deal_start(p as int) + (7 - p) <= 28,
                game.discard@.len() == 0,
                game.top_stacks@.len() == 4,
                forall|f: int| 0 <= f < 4 ==> (#[trigger] game.top_stacks@[f]@).len() == 0,
                forall|c: int| 0 <= c < 7 ==> (#[trigger] game.columns@[c]@).len()
                    == (if c < p { c + 1 } else { p as int }),
                forall|c: int, j: int| 0 <= c < 7 && 0 <= j < game.columns@[c]@.len()
                    ==> #[trigger] game.columns@[c]@[j] == dealt_card(cards0, c, j),
            decreases 7 - p,
        {
            let mut i: usize = p;
            while i < 7
                invariant
                    p <= i <= 7,
                    p < 7,
                    game.wf(),
                    game.deck.cards@ == cards0,
                    game.deck.cards@.len() == 52,
                    game.deck.top == deal_start(p as int) + (i - p),
                    0 <= deal_start(p as int) <= 28,
                    deal_start(p as int) + (7 - p) <= 28,
                    game.discard@.len() == 0,
                    game.top_stacks@.len() == 4,
                    forall|f: int| 0 <= f < 4 ==> (#[trigger] game.top_stacks@[f]@).len() == 0,
                    forall|c: int| 0 <= c < 7 ==> (#[trigger] game.columns@[c]@).len()
                        == (if c < p { c + 1 } else if c < i { p + 1 } else { p as int }),
                    forall|c: int, j: int| 0 <= c < 7 && 0 <= j < game.columns@[c]@.len()
                        ==> #[trigger] game.columns@[c]@[j] == dealt_card(cards0, c, j),
                decreases 7 - i,
            {
                let mut card = match game.deck.draw() {
                    Ok(c) => c,
                    Err(_) => {
                        proof {
                            assert(false);
                        }
                        Card { suit: Suit::Joker, rank: 1, visible: true }
                    },
                };
                if i > p {
                    card.set_visible(false);
                } else {
                    card.set_visible(true);
                }
                let ghost precols = game.columns@;
                let mut col = game.columns.remove(i);
                col.push(card);
                game.columns.insert(i, col);
                proof {
                    assert(game.columns@ =~= precols.update(i as int, game.columns@[i as int]));
                    assert(card == dealt_card(cards0, i as int, p as int));
                }
                i = i + 1;
            }
            p = p + 1;
            proof {
                lemma_deal_start_values();
            }
        }
        proof {
            lemma_deal_start_values();
        }
        game
    }

    /// Moves up to three cards, in order, from the draw pile to the waste;
    /// fewer when fewer remain, which is not an error.
    pub fn handle_draw(&mut self)
        requires
            old(self).wf(),
        ensures
            final(self).wf(),
            final(self).columns == old(self).columns,
            final(self).top_stacks == old(self).top_stacks,
            final(self).deck.cards == old(self).deck.cards,
            final(self).deck.top == old(self).deck.top
                + (if old(self).deck.spec_size() >= 3 { 3int } else { old(self).deck.spec_size() }),
            final(self).discard@ == old(self).discard@ + old(self).deck.undrawn().take(
                if old(self).deck.spec_size() >= 3 { 3int } else { old(self).deck.spec_size() }),
    {
        let mut n: usize = 0;
        while n < 3
            invariant
                n <= 3,
                self.wf(),
                n <= old(self).deck.spec_size(),
                self.columns == old(self).columns,
                self.top_stacks == old(self).top_stacks,
                self.deck.cards == old(self).deck.cards,
                self.deck.top == old(self).deck.top + n,
                self.discard@ == old(self).discard@ + old(self).deck.undrawn().take(n as int),
            decreases 3 - n,
        {
            match self.deck.draw() {
                Ok(c) => {
                    self.discard.push(c);
                    proof {
                        assert(old(self).deck.undrawn().take(n + 1)
                            =~= old(self).deck.undrawn().take(n as int).push(c));
                    }
                },
                Err(_) => {
                    proof {
                        assert(old(self).deck.undrawn().take(n as int)
                            =~= old(self).deck.undrawn().take(old(self).deck.spec_size()));
                    }
                    return ;
                },
            }
            n = n + 1;
        }
    }

    /// Decides a proposed move without touching the board; the verdict is
    /// exactly `move_check`.
    pub fn is_move_valid(&self, from: MoveCommand, to: MoveCommand) -> (r: Result<
        bool,
        GameError,
    >)
        requires
            self.wf(),
        ensures
            r == self.move_check(from, to),
    {
        let from_cols = matches!(from.location, Position::Columns);
        let to_cols = matches!(to.location, Position::Columns);
        if from_cols && from.i >= 7 {
            return Err(GameError::InvalidLocation);
        }
        if to_cols && to.i >= 7 {
            return Err(GameError::InvalidLocation);
        }
        let from_waste = matches!(from.location, Position::Waste);
        if !(from_cols || from_waste) {
            return Ok(false);
        }
        let src_len = if from_waste {
            self.discard.len()
        } else {
            self.columns[from.i].len()
        };
        if src_len == 0 {
            return Err(GameError::EmptySource);
        }
        let c = if from_waste {
            self.discard[src_len - 1]
        } else {
            self.columns[from.i][src_len - 1]
        };
        proof {
            assert(c == self.moved_card(from));
            assert(c.wf());
        }
        if to_cols {
            let col_len = self.columns[to.i].len();
            if col_len == 0 {
                return Ok(c.rank == 13);
            }
            let t = self.columns[to.i][col_len - 1];
            proof {
                assert(t == self.columns@[to.i as int]@.last());
                assert(t.wf());
            }
            return Ok(c.color() != t.color() && c.rank == t.rank - 1);
        }
        if matches!(to.location, Position::Top) {
            if matches!(c.suit, Suit::Joker) {
                return Ok(false);
            }
            let fi = suit_index(c.suit);
            let f_len = self.top_stacks[fi].len();
            if f_len == 0 {
                return Ok(c.rank == 14);
            }
            let t = self.top_stacks[fi][f_len - 1];
            proof {
                assert(t == self.top_stacks@[fi as int]@.last());
                assert(t.wf());
            }
            return Ok(c.color() == t.color() && c.rank == t.rank - 1);
        }
        Ok(false)
    }

    /// Validates a move and, when it is legal, relocates exactly one card;
    /// a source column that keeps cards shows its next card face up. Any
    /// failure leaves the whole board exactly as it was.
    pub fn handle_move(&mut self, from: MoveCommand, to: MoveCommand) -> (r: Result<
        (),
        GameError,
    >)
        requires
            old(self).wf(),
        ensures
            final(self).wf(),
            final(self).deck == old(self).deck,
            old(self).move_check(from, to) != Ok::<bool, GameError>(true)
                ==> *final(self) == *old(self),
            (match old(self).move_check(from, to) {
                Err(e) => r == Err::<(), GameError>(e),
                Ok(false) => r == Err::<(), GameError>(GameError::IllegalMove),
                Ok(true) => r == Ok::<(), GameError>(()),
            }),
            old(self).move_check(from, to) == Ok::<bool, GameError>(true) ==> {
                &&& final(self).discard@ == (if from.location is Waste {
                    old(self).discard@.drop_last()
                } else {
                    old(self).discard@
                })
                &&& final(self).columns@.len() == 7
                &&& forall|k: int| 0 <= k < 7 ==> (#[trigger] final(self).columns@[k])@
                    == old(self).col_after(from, to, k)
                &&& final(self).top_stacks@.len() == 4
                &&& forall|f: int| 0 <= f < 4 ==> (#[trigger] final(self).top_stacks@[f])@
                    == old(self).top_stack_after(from, to, f)
            },
    {
        let valid = match self.is_move_valid(from, to) {
            Ok(v) => v,
            Err(e) => {
                return Err(e);
            },
        };
        if !valid {
            return Err(GameError::IllegalMove);
        }
        let card = match from.location {
            Position::Columns => {
                let mut col = self.columns.remove(from.i);
                let card = match col.pop() {
                    Some(c) => c,
                    None => {
                        proof {
                            assert(false);
                        }
                        Card { suit: Suit::Joker, rank: 1, visible: true }
                    },
                };
                if col.len() > 0 {
                    let ci = col.len() - 1;
                    let t = col[ci];
                    col.set(ci, t.see());
                }
                self.columns.insert(from.i, col);
                proof {
                    assert(self.columns@ =~= old(self).columns@.update(from.i as int,
                        self.columns@[from.i as int]));
                    assert(self.columns@[from.i as int]@
                        =~= reveal_top(old(self).columns@[from.i as int]@.drop_last()));
                }
                card
            },
            Position::Waste => {
                match self.discard.pop() {
                    Some(c) => c,
                    None => {
                        proof {
                            assert(false);
                        }
                        Card { suit: Suit::Joker, rank: 1, visible: true }
                    },
                }
            },
            _ => {
                proof {
                    assert(false);
                }
                return Err(GameError::IllegalMove);
            },
        };
        proof {
            assert(card == old(self).moved_card(from));
        }
        match to.location {
            Position::Columns => {
                let ghost pre = self.columns@;
                let mut col = self.columns.remove(to.i);
                col.push(card);
                self.columns.insert(to.i, col);
                proof {
                    assert(self.columns@ =~= pre.update(to.i as int, self.columns@[to.i as int]));
                }
            },
            Position::Top => {
                let fi = suit_index(card.suit);
                let mut f = self.top_stacks.remove(fi);
                f.push(card);
                self.top_stacks.insert(fi, f);
                proof {
                    assert(self.top_stacks@ =~= old(self).top_stacks@.update(fi as int,
                        self.top_stacks@[fi as int]));
                }
            },
            _ => {
                proof {
                    assert(false);
                }
                return Err(GameError::IllegalMove);
            },
        }
        Ok(())
    }
}

/// Law: an empty foundation accepts exactly an ace of its suit; in
/// particular a two is refused there.
pub proof fn lemma_foundation_base(g: Klondike, from: MoveCommand, to: MoveCommand)
    requires
        to.location is Top,
        from.location is Waste || (from.location is Columns && from.i < 7),
        g.source_seq(from).len() > 0,
        g.moved_card(from).suit != Suit::Joker,
        g.top_stacks@[spec_suit_index(g.moved_card(from).suit)]@.len() == 0,
    ensures
        g.move_check(from, to) == Ok::<bool, GameError>(g.moved_card(from).rank == 14),
{
}

/// Law: an empty column accepts exactly a king, and a held column accepts
/// exactly the opposite color one rank below its exposed top.
pub proof fn lemma_column_rule(g: Klondike, from: MoveCommand, to: MoveCommand)
    requires
        to.location is Columns,
        to.i < 7,
        from.location is Waste || (from.location is Columns && from.i < 7),
        g.source_seq(from).len() > 0,
    ensures
        g.columns@[to.i as int]@.len() == 0
            ==> g.move_check(from, to) == Ok::<bool, GameError>(g.moved_card(from).rank == 13),
        g.columns@[to.i as int]@.len() > 0
            ==> g.move_check(from, to) == Ok::<bool, GameError>(
                g.moved_card(from).spec_color() != g.columns@[to.i as int]@.last().spec_color()
                && g.moved_card(from).rank == g.columns@[to.i as int]@.last().rank - 1),
{
}

impl Game for Klondike {
    /// Won exactly when each of the four foundations is complete, holding
    /// its full run of thirteen cards. The natural terminal state of the
    /// game is decided on the foundations, not on the columns.
    open spec fn won(&self) -> bool {
        &&& self.top_stacks@.len() == 4
        &&& forall|f: int| 0 <= f < 4 ==> (#[trigger] self.top_stacks@[f]@).len() == 13
    }

    fn win(&self) -> (r: bool)
        ensures
            r == self.won(),
    {
        if self.top_stacks.len() != 4 {
            return false;
        }
        let mut f: usize = 0;
        while f < 4
            invariant
                f <= 4,
                self.top_stacks@.len() == 4,
                forall|g: int| 0 <= g < f ==> (#[trigger] self.top_stacks@[g]@).len() == 13,
            decreases 4 - f,
        {
            if self.top_stacks[f].len() != 13 {
                proof {
                    assert(self.top_stacks@[f as int]@.len() != 13);
                }
                return false;
            }
            f = f + 1;
        }
        true
    }
}

} // verus!
