//! The card and draw-pile model shared by both solitaire variants.

use vstd::prelude::*;
use vstd::arithmetic::div_mod::{lemma_fundamental_div_mod, lemma_fundamental_div_mod_converse,
    lemma_mod_bound};
use vstd::string::StringExecFns;
use rand::seq::SliceRandom;

verus! {

/// Highest face rank: the Ace, which sits above the King.
pub const MAX_CARD_RANK: u8 = 14;

/// The four French suits, plus a joker used only as a placeholder.
#[derive(Debug, Clone, Copy, PartialEq, Eq, Structural)]
pub enum Suit {
    Heart,
    Spade,
    Club,
    Diamond,
    Joker,
}

/// Every failure the engine reports; each operation's contract says exactly
/// when each one is returned.
#[derive(Debug, Clone, Copy, PartialEq, Eq, Structural)]
pub enum GameError {
    /// A card was requested with a rank outside the face range.
    InvalidRank,
    /// A draw or deal asked for more cards than the pile still holds.
    EmptyStack,
    /// A move named a source location that holds no card.
    EmptySource,
    /// A move broke the placement rules of the variant being played.
    IllegalMove,
    /// A location index named a column that does not exist.
    InvalidLocation,
}

/// The glyphs that render a rank: letters for the faces, numerals for the
/// rest, each padded to two characters.
pub open spec fn rank_glyphs(rank: u8) -> Seq<char> {
    if rank == 14 {
        " A"@
    } else if rank == 13 {
        " K"@
    } else if rank == 12 {
        " Q"@
    } else if rank == 11 {
        " J"@
    } else if rank == 10 {
        "10"@
    } else if rank == 9 {
        " 9"@
    } else if rank == 8 {
        " 8"@
    } else if rank == 7 {
        " 7"@
    } else if rank == 6 {
        " 6"@
    } else if rank == 5 {
        " 5"@
    } else if rank == 4 {
        " 4"@
    } else if rank == 3 {
        " 3"@
    } else if rank == 2 {
        " 2"@
    } else if rank == 1 {
        " 1"@
    } else {
        " ?"@
    }
}

/// The glyphs that render a suit.
pub open spec fn suit_glyphs(suit: Suit) -> Seq<char> {
    match suit {
        Suit::Heart => "\u{2764}"@,
        Suit::Club => "\u{2663}\u{fe0f}"@,
        Suit::Spade => "\u{2660}\u{fe0f}"@,
        Suit::Diamond => "\u{2666}\u{fe0f}"@,
        Suit::Joker => "\u{1f0cf}"@,
    }
}

/// How a card renders: rank then suit when face up, a placeholder that
/// discloses nothing when face down.
pub open spec fn card_text(c: Card) -> Seq<char> {
    if !c.visible {
        "? ?"@
    } else {
        rank_glyphs(c.rank) + suit_glyphs(c.suit)
    }
}

/// One playing card. Visibility is display metadata: two cards of equal suit
/// and rank are the same card whether either is face up or face down.
#[derive(Debug, Clone, Copy, PartialEq, Eq, Structural)]
pub struct Card {
    pub suit: Suit,
    pub rank: u8,
    pub visible: bool,
}

impl Card {
    /// Ranks the engine works with: the faces 2..=14, plus rank 1, which only
    /// the low joker placeholder carries.
    pub open spec fn wf(self) -> bool {
        1 <= self.rank <= MAX_CARD_RANK
    }

    pub open spec fn spec_is_ace(self) -> bool {
        self.rank == MAX_CARD_RANK
    }

    /// True is black (clubs, spades), false is red (diamonds, hearts). A
    /// joker counts as black only at the out-of-range rank 0.
    pub open spec fn spec_color(self) -> bool {
        match self.suit {
            Suit::Club => true,
            Suit::Spade => true,
            Suit::Diamond => false,
            Suit::Heart => false,
            Suit::Joker => self.rank == 0,
        }
    }

    /// Builds a face-up card, rejecting any rank outside the face range with
    /// `InvalidRank`.
    pub fn new(suit: Suit, rank: u8) -> (r: Result<Card, GameError>)
        ensures
            2 <= rank <= MAX_CARD_RANK ==> r == Ok::<Card, GameError>(Card { suit, rank, visible: true }),
            !(2 <= rank <= MAX_CARD_RANK) ==> r == Err::<Card, GameError>(GameError::InvalidRank),
    {
        if rank > MAX_CARD_RANK || rank < 2 {
            Err(GameError::InvalidRank)
        } else {
            Ok(Card { suit, rank, visible: true })
        }
    }

    /// Builds a card that is face up from the start; it accepts and rejects
    /// exactly the ranks `new` does.
    pub fn new_visible(suit: Suit, rank: u8) -> (r: Result<Card, GameError>)
        ensures
            2 <= rank <= MAX_CARD_RANK ==> r == Ok::<Card, GameError>(Card { suit, rank, visible: true }),
            !(2 <= rank <= MAX_CARD_RANK) ==> r == Err::<Card, GameError>(GameError::InvalidRank),
    {
        let card = Card::new(suit, rank);
        match card {
            Ok(mut c) => {
                c.visible = true;
                Ok(c)
            },
            Err(e) => Err(e),
        }
    }

    pub fn is_ace(&self) -> (r: bool)
        ensures
            r == self.spec_is_ace(),
    {
        self.rank == MAX_CARD_RANK
    }

    pub fn set_visible(&mut self, new_val: bool)
        ensures
            final(self).suit == old(self).suit,
            final(self).rank == old(self).rank,
            final(self).visible == new_val,
    {
        self.visible = new_val;
    }

    /// The same card, face up.
    pub fn see(self) -> (r: Card)
        ensures
            r.suit == self.suit,
            r.rank == self.rank,
            r.visible,
    {
        Card { suit: self.suit, rank: self.rank, visible: true }
    }

    /// The same card, face down.
    pub fn conceal(self) -> (r: Card)
        ensures
            r.suit == self.suit,
            r.rank == self.rank,
            !r.visible,
    {
        Card { suit: self.suit, rank: self.rank, visible: false }
    }

    /// Renders the card: its rank glyph then its suit glyph, or a fixed
    /// placeholder that discloses nothing when the card is face down.
    pub fn text(&self) -> (r: String)
        ensures
            r@ == card_text(*self),
    {
        if !self.visible {
            return String::from_str("? ?");
        }
        let rank_str: &str = if self.rank == 14 {
            " A"
        } else if self.rank == 13 {
            " K"
        } else if self.rank == 12 {
            " Q"
        } else if self.rank == 11 {
            " J"
        } else if self.rank == 10 {
            "10"
        } else if self.rank == 9 {
            " 9"
        } else if self.rank == 8 {
            " 8"
        } else if self.rank == 7 {
            " 7"
        } else if self.rank == 6 {
            " 6"
        } else if self.rank == 5 {
            " 5"
        } else if self.rank == 4 {
            " 4"
        } else if self.rank == 3 {
            " 3"
        } else if self.rank == 2 {
            " 2"
        } else if self.rank == 1 {
            " 1"
        } else {
            " ?"
        };
        let suit_str: &str = match self.suit {
            Suit::Heart => "\u{2764}",
            Suit::Club => "\u{2663}\u{fe0f}",
            Suit::Spade => "\u{2660}\u{fe0f}",
            Suit::Diamond => "\u{2666}\u{fe0f}",
            Suit::Joker => "\u{1f0cf}",
        };
        let mut s = String::from_str(rank_str);
        s.append(suit_str);
        s
    }

    pub fn color(&self) -> (r: bool)
        ensures
            r == self.spec_color(),
    {
        match self.suit {
            Suit::Club => true,
            Suit::Spade => true,
            Suit::Diamond => false,
            Suit::Heart => false,
            Suit::Joker => self.rank == 0,
        }
    }
}

/// An ordered draw pile: a fixed sequence of cards and a forward-only cursor.
/// Cards before the cursor have been dealt out; the rest are still to come.
pub struct Stack {
    pub cards: Vec<Card>,
    pub top: usize,
}

/// Suit `j` of the fixed construction order used when a deck is built.
pub open spec fn suit_order(j: int) -> Suit {
    if j == 0 {
        Suit::Club
    } else if j == 1 {
        Suit::Spade
    } else if j == 2 {
        Suit::Heart
    } else {
        Suit::Diamond
    }
}

/// Card `k` of the rank-major order: ranks ascend in blocks of four suits.
pub open spec fn rank_major_card(k: int) -> Card {
    Card { suit: suit_order(k % 4), rank: (2 + k / 4) as u8, visible: true }
}

/// Card `k` of the suit-major order: thirteen ascending ranks per suit.
pub open spec fn suit_major_card(k: int) -> Card {
    Card { suit: suit_order(k / 13), rank: (2 + k % 13) as u8, visible: true }
}

/// The joker placeholders appended when a deck is built with jokers.
pub open spec fn joker_card(rank: u8) -> Card {
    Card { suit: Suit::Joker, rank, visible: true }
}

/// A face-up copy of a card, as dealing or exposing turns it over.
pub open spec fn face_up(c: Card) -> Card {
    Card { suit: c.suit, rank: c.rank, visible: true }
}

/// The face-up card of a given suit and rank, as deck building creates it.
pub open spec fn std_card(suit: Suit, rank: u8) -> Card {
    Card { suit, rank, visible: true }
}

impl Stack {
    /// The cursor never passes the end, and every card in the pile carries a
    /// rank the engine works with.
    pub open spec fn wf(self) -> bool {
        &&& self.top <= self.cards@.len()
        &&& forall|i: int| 0 <= i < self.cards@.len() ==> (#[trigger] self.cards@[i]).wf()
    }

    /// The cards not dealt out yet, next draw first.
    pub open spec fn undrawn(self) -> Seq<Card> {
        self.cards@.subrange(self.top as int, self.cards@.len() as int)
    }

    pub open spec fn spec_size(self) -> int {
        self.cards@.len() - self.top
    }

    /// Builds the 52-card deck in rank-major order, optionally followed by
    /// the two joker placeholders, with the cursor at the start.
    pub fn new_deck(with_joker: bool) -> (r: Stack)
        ensures
            r.wf(),
            r.top == 0,
            r.cards@.len() == (if with_joker { 54int } else { 52int }),
            forall|k: int| 0 <= k < 52 ==> r.cards@[k] == rank_major_card(k),
            with_joker ==> r.cards@[52] == joker_card(1) && r.cards@[53] == joker_card(2),
    {
        let mut cards: Vec<Card> = Vec::new();
        let mut i: u8 = 2;
        while i < 15
            invariant
                2 <= i <= 15,
                cards@.len() == 4 * (i - 2),
                forall|k: int| 0 <= k < cards@.len() ==> cards@[k] == rank_major_card(k),
                forall|k: int| 0 <= k < cards@.len() ==> (#[trigger] cards@[k]).wf(),
            decreases 15 - i,
        {
            cards.push(Card { suit: Suit::Club, rank: i, visible: true });
            cards.push(Card { suit: Suit::Spade, rank: i, visible: true });
            cards.push(Card { suit: Suit::Heart, rank: i, visible: true });
            cards.push(Card { suit: Suit::Diamond, rank: i, visible: true });
            proof {
                let m = i - 2;
                lemma_fundamental_div_mod_converse(4 * m + 0, 4, m as int, 0);
                lemma_fundamental_div_mod_converse(4 * m + 1, 4, m as int, 1);
                lemma_fundamental_div_mod_converse(4 * m + 2, 4, m as int, 2);
                lemma_fundamental_div_mod_converse(4 * m + 3, 4, m as int, 3);
            }
            i = i + 1;
        }
        if with_joker {
            cards.push(Card { suit: Suit::Joker, rank: 1, visible: true });
            cards.push(Card { suit: Suit::Joker, rank: 2, visible: true });
        }
        Stack { cards, top: 0 }
    }

    /// Builds the 52-card deck in suit-major order, optionally followed by
    /// the two joker placeholders, with the cursor at the start.
    pub fn new_deck_reverse(with_joker: bool) -> (r: Stack)
        ensures
            r.wf(),
            r.top == 0,
            r.cards@.len() == (if with_joker { 54int } else { 52int }),
            forall|k: int| 0 <= k < 52 ==> r.cards@[k] == suit_major_card(k),
            with_joker ==> r.cards@[52] == joker_card(1) && r.cards@[53] == joker_card(2),
    {
        let mut cards: Vec<Card> = Vec::new();
        let mut s: u8 = 0;
        while s < 4
            invariant
                s <= 4,
                cards@.len() == 13 * s,
                forall|k: int| 0 <= k < cards@.len() ==> cards@[k] == suit_major_card(k),
                forall|k: int| 0 <= k < cards@.len() ==> (#[trigger] cards@[k]).wf(),
            decreases 4 - s,
        {
            let suit_type = if s == 0 {
                Suit::Club
            } else if s == 1 {
                Suit::Spade
            } else if s == 2 {
                Suit::Heart
            } else {
                Suit::Diamond
            };
            let mut rank: u8 = 2;
            while rank < 15
                invariant
                    2 <= rank <= 15,
                    s < 4,
                    suit_type == suit_order(s as int),
                    cards@.len() == 13 * s + (rank - 2),
                    forall|k: int| 0 <= k < cards@.len() ==> cards@[k] == suit_major_card(k),
                    forall|k: int| 0 <= k < cards@.len() ==> (#[trigger] cards@[k]).wf(),
                decreases 15 - rank,
            {
                cards.push(Card { suit: suit_type, rank, visible: true });
                proof {
                    lemma_fundamental_div_mod_converse(
                        13 * (s as int) + (rank - 2),
                        13,
                        s as int,
                        rank - 2,
                    );
                }
                rank = rank + 1;
            }
            s = s + 1;
        }
        if with_joker {
            cards.push(Card { suit: Suit::Joker, rank: 1, visible: true });
            cards.push(Card { suit: Suit::Joker, rank: 2, visible: true });
        }
        Stack { cards, top: 0 }
    }

    /// Randomly reorders the undrawn remainder of the pile. Cards already
    /// dealt keep their place, and the remainder keeps exactly its cards.
    pub fn shuffle(&mut self)
        requires
            old(self).wf(),
        ensures
            final(self).wf(),
            final(self).top == old(self).top,
            final(self).cards@.len() == old(self).cards@.len(),
            forall|i: int| 0 <= i < old(self).top ==> final(self).cards@[i] == old(self).cards@[i],
            final(self).undrawn().to_multiset() == old(self).undrawn().to_multiset(),
    {
        let top = self.top;
        shuffle_from(&mut self.cards, top);
        proof {
            broadcast use vstd::seq_lib::group_to_multiset_ensures;

            assert forall|i: int| 0 <= i < self.cards@.len() implies (
                #[trigger] self.cards@[i]).wf() by {
                if i >= self.top {
                    let u = self.undrawn();
                    assert(u[i - self.top] == self.cards@[i]);
                    assert(u.to_multiset().contains(self.cards@[i]));
                    let v = old(self).undrawn();
                    assert(v.to_multiset().contains(self.cards@[i]));
                    let w = choose|w: int| 0 <= w < v.len() && v[w] == self.cards@[i];
                    assert(old(self).cards@[w + old(self).top] == self.cards@[i]);
                }
            }
        }
    }

    /// Hands out the card at the cursor and advances the cursor; an exhausted
    /// pile reports `EmptyStack` and stays as it is.
    pub fn draw(&mut self) -> (r: Result<Card, GameError>)
        requires
            old(self).wf(),
        ensures
            final(self).wf(),
            old(self).spec_size() == 0 ==> r == Err::<Card, GameError>(GameError::EmptyStack)
                && *final(self) == *old(self),
            old(self).spec_size() > 0 ==> r == Ok::<Card, GameError>(old(self).cards@[old(self).top as int])
                && final(self).cards == old(self).cards
                && final(self).top == old(self).top + 1,
    {
        if self.top == self.cards.len() {
            Err(GameError::EmptyStack)
        } else {
            let card = self.cards[self.top];
            self.top = self.top + 1;
            Ok(card)
        }
    }

    /// How many cards are still undrawn.
    pub fn size(&self) -> (r: usize)
        requires
            self.wf(),
        ensures
            r == self.spec_size(),
    {
        self.cards.len() - self.top
    }

    /// Draws `count` cards in order. When fewer remain it reports
    /// `EmptyStack` and leaves the pile untouched.
    pub fn deal(&mut self, count: usize) -> (r: Result<Vec<Card>, GameError>)
        requires
            old(self).wf(),
        ensures
            final(self).wf(),
            old(self).spec_size() < count ==> r is Err && r->Err_0 == GameError::EmptyStack
                && *final(self) == *old(self),
            old(self).spec_size() >= count ==> r is Ok
                && r->Ok_0@ == old(self).undrawn().take(count as int)
                && final(self).cards == old(self).cards
                && final(self).top == old(self).top + count,
    {
        if self.size() < count {
            return Err(GameError::EmptyStack);
        }
        let mut cards: Vec<Card> = Vec::new();
        let mut n: usize = 0;
        while n < count
            invariant
                n <= count,
                self.wf(),
                self.cards == old(self).cards,
                count <= old(self).spec_size(),
                self.top == old(self).top + n,
                cards@ == old(self).undrawn().take(n as int),
            decreases count - n,
        {
            let card = match self.draw() {
                Ok(c) => c,
                Err(_) => {
                    proof {
                        assert(false);
                    }
                    Card { suit: Suit::Joker, rank: 1, visible: true }
                },
            };
            cards.push(card);
            n = n + 1;
            proof {
                assert(cards@ =~= old(self).undrawn().take(n as int));
            }
        }
        Ok(cards)
    }

    /// A look at the next card to be drawn, without drawing it.
    pub fn top_card(&self) -> (r: Option<Card>)
        requires
            self.wf(),
        ensures
            self.spec_size() == 0 ==> r is None,
            self.spec_size() > 0 ==> r == Some(self.cards@[self.top as int]),
    {
        if self.top < self.cards.len() {
            Some(self.cards[self.top])
        } else {
            None
        }
    }
}

proof fn lemma_split_52(k: int, d: int)
    requires
        0 <= k < 52,
        d == 4 || d == 13,
    ensures
        0 <= k % d < d,
        0 <= k / d < 52int / d,
        k == d * (k / d) + k % d,
{
    lemma_fundamental_div_mod(k, d);
    lemma_mod_bound(k, d);
}

/// Law: a deck built in rank-major order holds every suit/rank pair with a
/// face rank exactly once — each pair occurs somewhere in the first 52
/// cards, and no two cards of the deck are alike.
pub proof fn lemma_new_deck_complete(d: Stack, with_joker: bool)
    requires
        d.cards@.len() == (if with_joker { 54int } else { 52int }),
        forall|k: int| 0 <= k < 52 ==> d.cards@[k] == rank_major_card(k),
        with_joker ==> d.cards@[52] == joker_card(1) && d.cards@[53] == joker_card(2),
    ensures
        forall|suit: Suit, rank: u8| suit != Suit::Joker && 2 <= rank <= MAX_CARD_RANK
            ==> exists|k: int| 0 <= k < 52
                && d.cards@[k] == #[trigger] std_card(suit, rank),
        forall|k1: int, k2: int| 0 <= k1 < k2 < d.cards@.len()
            ==> d.cards@[k1] != d.cards@[k2],
{
    assert forall|suit: Suit, rank: u8| suit != Suit::Joker && 2 <= rank <= MAX_CARD_RANK
        implies exists|k: int| 0 <= k < 52
            && d.cards@[k] == #[trigger] std_card(suit, rank) by {
        let j: int = if suit == Suit::Club {
            0
        } else if suit == Suit::Spade {
            1
        } else if suit == Suit::Heart {
            2
        } else {
            3
        };
        let k: int = 4 * (rank - 2) + j;
        lemma_fundamental_div_mod_converse(k, 4, rank - 2, j);
        assert(k % 4 == j && k / 4 == rank - 2);
        assert(rank_major_card(k) == std_card(suit, rank));
        assert(d.cards@[k] == std_card(suit, rank));
    }
    assert forall|k1: int, k2: int| 0 <= k1 < k2 < d.cards@.len() implies d.cards@[k1]
        != d.cards@[k2] by {
        if k2 < 52 {
            lemma_split_52(k1, 4);
            lemma_split_52(k2, 4);
            assert(d.cards@[k1] == rank_major_card(k1));
            assert(d.cards@[k2] == rank_major_card(k2));
            if d.cards@[k1] == d.cards@[k2] {
                assert(suit_order(k1 % 4) == suit_order(k2 % 4));
                assert(k1 % 4 == k2 % 4);
                assert((2 + k1 / 4) as u8 == (2 + k2 / 4) as u8);
                assert(k1 / 4 == k2 / 4);
                assert(false);
            }
        } else if k1 < 52 {
            lemma_split_52(k1, 4);
            assert(d.cards@[k1] == rank_major_card(k1));
            assert(suit_order(k1 % 4) != Suit::Joker);
        }
    }
}

/// Law: a deck built in suit-major order holds every suit/rank pair with a
/// face rank exactly once, just as the rank-major order does.
pub proof fn lemma_new_deck_reverse_complete(d: Stack, with_joker: bool)
    requires
        d.cards@.len() == (if with_joker { 54int } else { 52int }),
        forall|k: int| 0 <= k < 52 ==> d.cards@[k] == suit_major_card(k),
        with_joker ==> d.cards@[52] == joker_card(1) && d.cards@[53] == joker_card(2),
    ensures
        forall|suit: Suit, rank: u8| suit != Suit::Joker && 2 <= rank <= MAX_CARD_RANK
            ==> exists|k: int| 0 <= k < 52
                && d.cards@[k] == #[trigger] std_card(suit, rank),
        forall|k1: int, k2: int| 0 <= k1 < k2 < d.cards@.len()
            ==> d.cards@[k1] != d.cards@[k2],
{
    assert forall|suit: Suit, rank: u8| suit != Suit::Joker && 2 <= rank <= MAX_CARD_RANK
        implies exists|k: int| 0 <= k < 52
            && d.cards@[k] == #[trigger] std_card(suit, rank) by {
        let j: int = if suit == Suit::Club {
            0
        } else if suit == Suit::Spade {
            1
        } else if suit == Suit::Heart {
            2
        } else {
            3
        };
        let k: int = 13 * j + (rank - 2);
        lemma_fundamental_div_mod_converse(k, 13, j, rank - 2);
        assert(k % 13 == rank - 2 && k / 13 == j);
        assert(suit_major_card(k) == std_card(suit, rank));
        assert(d.cards@[k] == std_card(suit, rank));
    }
    assert forall|k1: int, k2: int| 0 <= k1 < k2 < d.cards@.len() implies d.cards@[k1]
        != d.cards@[k2] by {
        if k2 < 52 {
            lemma_split_52(k1, 13);
            lemma_split_52(k2, 13);
            assert(d.cards@[k1] == suit_major_card(k1));
            assert(d.cards@[k2] == suit_major_card(k2));
            if d.cards@[k1] == d.cards@[k2] {
                assert(suit_order(k1 / 13) == suit_order(k2 / 13));
                assert(k1 / 13 == k2 / 13);
                assert((2 + k1 % 13) as u8 == (2 + k2 % 13) as u8);
                assert(k1 % 13 == k2 % 13);
                assert(false);
            }
        } else if k1 < 52 {
            lemma_split_52(k1, 13);
            assert(d.cards@[k1] == suit_major_card(k1));
            assert(suit_order(k1 / 13) != Suit::Joker);
        }
    }
}

/// Relies on rand's `SliceRandom::shuffle`: it reorders the given slice in
/// place, so the tail keeps exactly its elements, and the head is untouched.
#[verifier::external_body]
fn shuffle_from(cards: &mut Vec<Card>, start: usize)
    requires
        start <= old(cards)@.len(),
    ensures
        final(cards)@.len() == old(cards)@.len(),
        forall|i: int| 0 <= i < start ==> final(cards)@[i] == old(cards)@[i],
        final(cards)@.subrange(start as int, final(cards)@.len() as int).to_multiset()
            == old(cards)@.subrange(start as int, old(cards)@.len() as int).to_multiset(),
{
    cards[start..].shuffle(&mut rand::thread_rng());
}

} // verus!
